//! Bidirectional level-restricted shortest-distance search over a `ChGraph`.
//!
//! The forward search follows out-slices from the source, the backward search
//! follows in-slices from the target, and each only climbs to nodes of equal
//! or higher level. The answer is the least weight of an up-down path: a
//! forward climb from the source and a backward climb from the target that
//! end at the same node. On a genuine contraction hierarchy that is the
//! shortest distance.
use vstd::prelude::*;

use vstd::multiset::Multiset;

use crate::ch::{
    ends_and_length, lemma_in_edge_is_out_edge, lemma_mirrored_slices, reversed_ends_and_length,
    ChEdgeInfo, ChGraph, ChGraphView, HalfEdge, Length, Level, NodeId,
    OffsetMode,
};
use crate::frontier::{Frontier, NodeCost};

verus! {

/// The half-edges that a search in direction `mode` may take from `u`.
pub open spec fn edges_of(g: ChGraphView, mode: OffsetMode, u: int) -> Seq<HalfEdge> {
    match mode {
        OffsetMode::Out => g.out_slice(u),
        OffsetMode::In => g.in_slice(u),
    }
}

/// From `u`, half-edge `k` of its slice leads to `x`, no lower in level.
pub open spec fn step_ok(g: ChGraphView, mode: OffsetMode, u: int, k: int, x: int) -> bool {
    &&& 0 <= k < edges_of(g, mode, u).len()
    &&& edges_of(g, mode, u)[k].endpoint == x
    &&& g.level[x] >= g.level[u]
}

/// `ns` are the nodes of a climb and `ks` the slice positions taken between them.
pub open spec fn is_walk(g: ChGraphView, mode: OffsetMode, ns: Seq<int>, ks: Seq<int>) -> bool {
    &&& ns.len() == ks.len() + 1
    &&& forall|j: int| 0 <= j < ns.len() ==> 0 <= #[trigger] ns[j] < g.node_count()
    &&& forall|j: int| 0 <= j < ks.len() ==> step_ok(g, mode, ns[j], #[trigger] ks[j], ns[j + 1])
}

pub open spec fn walk_weight(g: ChGraphView, mode: OffsetMode, ns: Seq<int>, ks: Seq<int>) -> int
    decreases ks.len(),
{
    if ks.len() == 0 {
        0
    } else {
        walk_weight(g, mode, ns.drop_last(), ks.drop_last()) + edges_of(
            g,
            mode,
            ns[ks.len() - 1],
        )[ks.last()].weight
    }
}

/// Some climb in direction `mode` leads from `a` to `v` with weight `d`.
pub open spec fn reaches(g: ChGraphView, mode: OffsetMode, a: int, v: int, d: int) -> bool {
    exists|ns: Seq<int>, ks: Seq<int>|
        #[trigger] is_walk(g, mode, ns, ks) && ns[0] == a && ns.last() == v && walk_weight(
            g,
            mode,
            ns,
            ks,
        ) == d
}

/// An up-down path of weight `d` leads from `s` to `t`: a forward climb from
/// `s` and a backward climb from `t` meet at some node.
pub open spec fn ch_path(g: ChGraphView, s: int, t: int, d: int) -> bool {
    exists|m: int, a: int, b: int|
        #[trigger] reaches(g, OffsetMode::Out, s, m, a) && #[trigger] reaches(
            g,
            OffsetMode::In,
            t,
            m,
            b,
        ) && a + b == d
}

/// `r` is the least weight of an up-down path from `s` to `t`, or
/// `usize::MAX` when there is none below it.
pub open spec fn is_ch_distance(g: ChGraphView, s: int, t: int, r: usize) -> bool {
    &&& r < usize::MAX ==> ch_path(g, s, t, r as int)
    &&& forall|d: int| #[trigger] ch_path(g, s, t, d) ==> r <= d
}

spec fn heap_has(heap: Multiset<NodeCost>, v: int, c: int) -> bool {
    heap.count(NodeCost { node: v as usize, cost: c as usize }) > 0
}

spec fn heap_below(heap: Multiset<NodeCost>, c: int) -> bool {
    exists|e: NodeCost| #[trigger] heap.count(e) > 0 && e.cost <= c
}

/// Every admissible half-edge of `u` has been relaxed.
spec fn relaxed(g: ChGraphView, mode: OffsetMode, dist: Seq<usize>, u: int) -> bool {
    forall|k: int|
        0 <= k < edges_of(g, mode, u).len() && g.level[(#[trigger] edges_of(g, mode, u)[k]).endpoint as int]
            >= g.level[u] ==> dist[u] + edges_of(g, mode, u)[k].weight >= usize::MAX
            || dist[edges_of(g, mode, u)[k].endpoint as int] <= dist[u] + edges_of(g, mode, u)[k].weight
}

/// The state of one direction of the search from `src`.
spec fn side_ok(g: ChGraphView, mode: OffsetMode, src: int, dist: Seq<usize>, heap: Multiset<NodeCost>) -> bool {
    &&& dist.len() == g.node_count()
    &&& 0 <= src < g.node_count()
    &&& dist[src] == 0
    &&& forall|v: int|
        0 <= v < dist.len() && #[trigger] dist[v] < usize::MAX ==> reaches(g, mode, src, v, dist[v] as int)
    &&& forall|v: int|
        0 <= v < dist.len() && #[trigger] dist[v] < usize::MAX ==> relaxed(g, mode, dist, v)
            || heap_has(heap, v, dist[v] as int)
    &&& entries_ok(dist, heap)
}

/// Every entry names a node, costs no less than its recorded distance, and
/// is finite.
spec fn entries_ok(dist: Seq<usize>, heap: Multiset<NodeCost>) -> bool {
    forall|e: NodeCost|
        #[trigger] heap.count(e) > 0 ==> e.node < dist.len() && e.cost >= dist[e.node as int] && e.cost
            < usize::MAX
}

/// The best meeting weight found so far is a path, and no meeting node that
/// both sides have finished with is missed.
spec fn meet_ok(
    g: ChGraphView,
    s: int,
    t: int,
    ds: Seq<usize>,
    dt: Seq<usize>,
    hs: Multiset<NodeCost>,
    ht: Multiset<NodeCost>,
    best: usize,
) -> bool {
    &&& best < usize::MAX ==> ch_path(g, s, t, best as int)
    &&& forall|m: int|
        0 <= m < ds.len() && #[trigger] ds[m] < usize::MAX && dt[m] < usize::MAX ==> best <= ds[m]
            + dt[m] || heap_has(hs, m, ds[m] as int) || heap_has(ht, m, dt[m] as int)
}

/// Every finite entry of `dist` is listed in `touched`.
spec fn touched_ok(dist: Seq<usize>, touched: Seq<NodeId>) -> bool {
    &&& forall|v: int| 0 <= v < dist.len() && #[trigger] dist[v] != usize::MAX ==> touched.contains(v as usize)
    &&& forall|j: int| 0 <= j < touched.len() ==> #[trigger] touched[j] < dist.len()
}

spec fn seq_sum(s: Seq<usize>) -> int
    decreases s.len(),
{
    if s.len() == 0 {
        0
    } else {
        seq_sum(s.drop_last()) + s.last()
    }
}

proof fn lemma_seq_sum_update(s: Seq<usize>, i: int, v: usize)
    requires
        0 <= i < s.len(),
    ensures
        seq_sum(s.update(i, v)) == seq_sum(s) - s[i] + v,
    decreases s.len(),
{
    let u = s.update(i, v);
    if i < s.len() - 1 {
        lemma_seq_sum_update(s.drop_last(), i, v);
        assert(u.drop_last() =~= s.drop_last().update(i, v));
    } else {
        assert(u.drop_last() =~= s.drop_last());
    }
}

proof fn lemma_seq_sum_nonneg(s: Seq<usize>)
    ensures
        seq_sum(s) >= 0,
    decreases s.len(),
{
    if s.len() > 0 {
        lemma_seq_sum_nonneg(s.drop_last());
    }
}

proof fn lemma_walk_weight_nonneg(g: ChGraphView, mode: OffsetMode, ns: Seq<int>, ks: Seq<int>)
    ensures
        walk_weight(g, mode, ns, ks) >= 0,
    decreases ks.len(),
{
    if ks.len() > 0 {
        lemma_walk_weight_nonneg(g, mode, ns.drop_last(), ks.drop_last());
    }
}

proof fn lemma_walk_prefix(g: ChGraphView, mode: OffsetMode, ns: Seq<int>, ks: Seq<int>)
    requires
        is_walk(g, mode, ns, ks),
        ks.len() > 0,
    ensures
        is_walk(g, mode, ns.drop_last(), ks.drop_last()),
        step_ok(g, mode, ns[ks.len() - 1], ks.last(), ns.last()),
{
    let ns2 = ns.drop_last();
    let ks2 = ks.drop_last();
    assert forall|j: int| 0 <= j < ks2.len() implies step_ok(g, mode, ns2[j], #[trigger] ks2[j], ns2[j + 1]) by {
        assert(step_ok(g, mode, ns[j], ks[j], ns[j + 1]));
    }
    assert(step_ok(g, mode, ns[ks.len() - 1], ks[ks.len() - 1], ns[ks.len() as int]));
}

proof fn lemma_walk_extend(
    g: ChGraphView,
    mode: OffsetMode,
    ns: Seq<int>,
    ks: Seq<int>,
    k: int,
    x: int,
)
    requires
        is_walk(g, mode, ns, ks),
        step_ok(g, mode, ns.last(), k, x),
        0 <= x < g.node_count(),
    ensures
        is_walk(g, mode, ns.push(x), ks.push(k)),
        walk_weight(g, mode, ns.push(x), ks.push(k)) == walk_weight(g, mode, ns, ks) + edges_of(
            g,
            mode,
            ns.last(),
        )[k].weight,
        ns.push(x)[0] == ns[0],
{
    let ns2 = ns.push(x);
    let ks2 = ks.push(k);
    assert forall|j: int| 0 <= j < ks2.len() implies step_ok(g, mode, ns2[j], #[trigger] ks2[j], ns2[j + 1]) by {
        if j < ks.len() {
            assert(step_ok(g, mode, ns[j], ks[j], ns[j + 1]));
        }
    }
    assert(ns2.drop_last() =~= ns);
    assert(ks2.drop_last() =~= ks);
}

/// A walk of no steps.
proof fn lemma_walk_empty(g: ChGraphView, mode: OffsetMode, a: int)
    requires
        0 <= a < g.node_count(),
    ensures
        reaches(g, mode, a, a, 0),
{
    let ns = seq![a];
    let ks = Seq::<int>::empty();
    assert(is_walk(g, mode, ns, ks));
    assert(walk_weight(g, mode, ns, ks) == 0);
}

/// Along any climb from the source, either the frontier holds an entry no
/// dearer than the climb, or the climb is at least `usize::MAX`, or the
/// recorded distance of its end is no more than its weight and the end is
/// relaxed.
proof fn lemma_climb_bound(
    g: ChGraphView,
    mode: OffsetMode,
    src: int,
    dist: Seq<usize>,
    heap: Multiset<NodeCost>,
    ns: Seq<int>,
    ks: Seq<int>,
)
    requires
        side_ok(g, mode, src, dist, heap),
        is_walk(g, mode, ns, ks),
        ns[0] == src,
    ensures
        heap_below(heap, walk_weight(g, mode, ns, ks)) || walk_weight(g, mode, ns, ks)
            >= usize::MAX || (dist[ns.last()] <= walk_weight(g, mode, ns, ks) && relaxed(
            g,
            mode,
            dist,
            ns.last(),
        )),
    decreases ks.len(),
{
    let w = walk_weight(g, mode, ns, ks);
    if ks.len() == 0 {
        assert(ns.last() == src);
        assert(dist[src] < usize::MAX);
        if !relaxed(g, mode, dist, src) {
            assert(heap_has(heap, src, 0));
            assert(heap.count(NodeCost { node: src as usize, cost: 0 }) > 0);
        }
    } else {
        let ns0 = ns.drop_last();
        let ks0 = ks.drop_last();
        lemma_walk_prefix(g, mode, ns, ks);
        lemma_climb_bound(g, mode, src, dist, heap, ns0, ks0);
        let w0 = walk_weight(g, mode, ns0, ks0);
        let u = ns[ks.len() - 1];
        let k = ks.last();
        let x = ns.last();
        let h = edges_of(g, mode, u)[k];
        assert(ns0.last() == u);
        assert(w == w0 + h.weight);
        if heap_below(heap, w0) {
            let e = choose|e: NodeCost| #[trigger] heap.count(e) > 0 && e.cost <= w0;
            assert(heap.count(e) > 0 && e.cost <= w);
        } else if w0 >= usize::MAX {
        } else {
            assert(dist[u] <= w0 && relaxed(g, mode, dist, u));
            assert(g.level[h.endpoint as int] >= g.level[u]);
            if dist[u] + h.weight >= usize::MAX {
            } else {
                assert(dist[x] <= dist[u] + h.weight);
                assert(0 <= x < dist.len());
                assert(dist[x] < usize::MAX);
                if !relaxed(g, mode, dist, x) {
                    assert(heap_has(heap, x, dist[x] as int));
                    let e = NodeCost { node: x as usize, cost: dist[x] };
                    assert(heap.count(e) > 0 && e.cost <= w);
                }
            }
        }
    }
}

pub open spec fn flip(mode: OffsetMode) -> OffsetMode {
    match mode {
        OffsetMode::Out => OffsetMode::In,
        OffsetMode::In => OffsetMode::Out,
    }
}

/// `meet_ok` with the side that searches in direction `mode` first.
spec fn meet_oriented(
    g: ChGraphView,
    mode: OffsetMode,
    src: int,
    other_src: int,
    dist: Seq<usize>,
    other: Seq<usize>,
    heap: Multiset<NodeCost>,
    other_heap: Multiset<NodeCost>,
    best: usize,
) -> bool {
    match mode {
        OffsetMode::Out => meet_ok(g, src, other_src, dist, other, heap, other_heap, best),
        OffsetMode::In => meet_ok(g, other_src, src, other, dist, other_heap, heap, best),
    }
}

proof fn lemma_heap_remove_keeps(heap: Multiset<NodeCost>, x: NodeCost, v: int, c: int)
    requires
        heap_has(heap, v, c),
        x != (NodeCost { node: v as usize, cost: c as usize }),
    ensures
        heap_has(heap.remove(x), v, c),
{
    broadcast use vstd::multiset::group_multiset_axioms;

}

proof fn lemma_heap_push_keeps(heap: Multiset<NodeCost>, e: NodeCost, v: int, c: int)
    requires
        heap_has(heap, v, c),
    ensures
        heap_has(heap.insert(e), v, c),
{
    broadcast use vstd::multiset::group_multiset_axioms;

}

proof fn lemma_edges_in_range(g: ChGraphView, mode: OffsetMode, u: int)
    requires
        g.wf(),
        0 <= u < g.node_count(),
    ensures
        forall|k: int|
            0 <= k < edges_of(g, mode, u).len() ==> (#[trigger] edges_of(g, mode, u)[k]).endpoint
                < g.node_count(),
{
    let n = g.node_count();
    assert(g.offsets[0].in_start <= g.offsets[u].in_start);
    assert(g.offsets[u].in_start <= g.offsets[u + 1].in_start);
    assert(g.offsets[u + 1].in_start <= g.offsets[n].in_start);
    assert(g.offsets[0].out_start <= g.offsets[u].out_start);
    assert(g.offsets[u].out_start <= g.offsets[u + 1].out_start);
    assert(g.offsets[u + 1].out_start <= g.offsets[n].out_start);
    assert forall|k: int| 0 <= k < edges_of(g, mode, u).len() implies (#[trigger] edges_of(
        g,
        mode,
        u,
    )[k]).endpoint < n by {
        match mode {
            OffsetMode::Out => {
                assert(g.out_slice(u)[k] == g.out_edges[g.out_start(u) + k]);
            },
            OffsetMode::In => {
                assert(g.in_slice(u)[k] == g.in_edges[g.in_start(u) + k]);
            },
        }
    }
}

/// Lowering other entries of `dist` keeps `u` relaxed.
proof fn lemma_relaxed_mono(g: ChGraphView, mode: OffsetMode, d1: Seq<usize>, d2: Seq<usize>, u: int)
    requires
        relaxed(g, mode, d1, u),
        d1.len() == d2.len(),
        0 <= u < d1.len(),
        d2[u] == d1[u],
        forall|y: int| 0 <= y < d1.len() ==> #[trigger] d2[y] <= d1[y],
        forall|k: int|
            0 <= k < edges_of(g, mode, u).len() ==> (#[trigger] edges_of(g, mode, u)[k]).endpoint
                < d1.len(),
    ensures
        relaxed(g, mode, d2, u),
{
    assert forall|k: int|
        0 <= k < edges_of(g, mode, u).len() && g.level[(#[trigger] edges_of(g, mode, u)[k]).endpoint as int]
            >= g.level[u] implies d2[u] + edges_of(g, mode, u)[k].weight >= usize::MAX
        || d2[edges_of(g, mode, u)[k].endpoint as int] <= d2[u] + edges_of(g, mode, u)[k].weight by {
        let x = edges_of(g, mode, u)[k].endpoint as int;
        assert(d2[x] <= d1[x]);
    }
}

/// Relaxes the admissible half-edges of `node`, which the search in
/// direction `mode` reached at `cost`: each endpoint that gets cheaper is
/// lowered, listed as touched and put on the frontier.
fn relax_edges(
    graph: &ChGraph,
    mode: OffsetMode,
    dist: &mut Vec<usize>,
    touched: &mut Vec<NodeId>,
    heap: &mut Frontier,
    node: usize,
    cost: usize,
    Ghost(src): Ghost<int>,
)
    requires
        graph@.wf(),
        old(heap).wf(),
        node < graph@.node_count(),
        old(dist).len() == graph@.node_count(),
        old(dist)@[node as int] == cost,
        cost < usize::MAX,
        0 <= src < graph@.node_count(),
        old(dist)@[src] == 0,
        forall|v: int|
            0 <= v < old(dist).len() && #[trigger] old(dist)@[v] < usize::MAX ==> reaches(
                graph@,
                mode,
                src,
                v,
                old(dist)@[v] as int,
            ),
        entries_ok(old(dist)@, old(heap)@),
        touched_ok(old(dist)@, old(touched)@),
    ensures
        final(heap).wf(),
        final(dist).len() == old(dist).len(),
        final(dist)@[node as int] == cost,
        final(dist)@[src] == 0,
        forall|v: int| 0 <= v < final(dist).len() ==> #[trigger] final(dist)@[v] <= old(dist)@[v],
        forall|v: int|
            0 <= v < final(dist).len() && #[trigger] final(dist)@[v] < usize::MAX ==> reaches(
                graph@,
                mode,
                src,
                v,
                final(dist)@[v] as int,
            ),
        forall|v: int|
            0 <= v < final(dist).len() && #[trigger] final(dist)@[v] < old(dist)@[v] ==> heap_has(
                final(heap)@,
                v,
                final(dist)@[v] as int,
            ),
        forall|v: int|
            0 <= v < final(dist).len() && #[trigger] final(dist)@[v] == old(dist)@[v] && heap_has(
                old(heap)@,
                v,
                old(dist)@[v] as int,
            ) ==> heap_has(final(heap)@, v, final(dist)@[v] as int),
        entries_ok(final(dist)@, final(heap)@),
        relaxed(graph@, mode, final(dist)@, node as int),
        touched_ok(final(dist)@, final(touched)@),
        seq_sum(final(dist)@) + final(heap)@.len() <= seq_sum(old(dist)@) + old(heap)@.len(),
{
    let ghost g = graph@;
    let ghost d1 = dist@;
    let ghost h1 = heap@;
    let edges = match mode {
        OffsetMode::Out => graph.outgoing_edges_for(node),
        OffsetMode::In => graph.ingoing_edges_for(node),
    };
    let node_level = graph.level(node);
    proof {
        lemma_edges_in_range(g, mode, node as int);
        assert(reaches(g, mode, src, node as int, cost as int));
    }
    let mut k: usize = 0;
    while k < edges.len()
        invariant
            g == graph@,
            g.wf(),
            heap.wf(),
            edges@ == edges_of(g, mode, node as int),
            node < g.node_count(),
            node_level == g.level[node as int],
            forall|k2: int|
                0 <= k2 < edges@.len() ==> (#[trigger] edges@[k2]).endpoint < g.node_count(),
            0 <= k <= edges.len(),
            dist.len() == g.node_count(),
            d1.len() == g.node_count(),
            dist@[node as int] == cost,
            cost < usize::MAX,
            0 <= src < g.node_count(),
            dist@[src] == 0,
            reaches(g, mode, src, node as int, cost as int),
            forall|v: int| 0 <= v < dist.len() ==> #[trigger] dist@[v] <= d1[v],
            forall|v: int|
                0 <= v < dist.len() && #[trigger] dist@[v] < usize::MAX ==> reaches(
                    g,
                    mode,
                    src,
                    v,
                    dist@[v] as int,
                ),
            forall|v: int|
                0 <= v < dist.len() && #[trigger] dist@[v] < d1[v] ==> heap_has(
                    heap@,
                    v,
                    dist@[v] as int,
                ),
            forall|v: int|
                0 <= v < dist.len() && #[trigger] dist@[v] == d1[v] && heap_has(h1, v, d1[v] as int)
                    ==> heap_has(heap@, v, dist@[v] as int),
            entries_ok(dist@, heap@),
            forall|k2: int|
                0 <= k2 < k && g.level[(#[trigger] edges@[k2]).endpoint as int] >= g.level[node as int]
                    ==> cost + edges@[k2].weight >= usize::MAX || dist@[edges@[k2].endpoint as int]
                    <= cost + edges@[k2].weight,
            touched_ok(dist@, touched@),
            seq_sum(dist@) + heap@.len() <= seq_sum(d1) + h1.len(),
        decreases edges.len() - k,
    {
        let h = edges[k];
        let x = h.endpoint;
        if graph.level(x) >= node_level {
            match cost.checked_add(h.weight) {
                Some(nc) => {
                    if nc < dist[x] {
                        let ghost dprev = dist@;
                        let ghost hprev = heap@;
                        let ghost tprev = touched@;
                        proof {
                            assert(step_ok(g, mode, node as int, k as int, x as int));
                            let (ns, ks) = choose|ns: Seq<int>, ks: Seq<int>|
                                #[trigger] is_walk(g, mode, ns, ks) && ns[0] == src && ns.last()
                                    == node as int && walk_weight(g, mode, ns, ks) == cost as int;
                            lemma_walk_extend(g, mode, ns, ks, k as int, x as int);
                            assert(reaches(g, mode, src, x as int, nc as int));
                            lemma_seq_sum_update(dprev, x as int, nc);
                        }
                        dist.set(x, nc);
                        touched.push(x);
                        let e = NodeCost { node: x, cost: nc };
                        heap.push(e);
                        proof {
                            lemma_relax_bookkeeping(dprev, dist@, d1, hprev, heap@, h1, tprev, touched@, x as int, e);
                        }
                    }
                },
                None => {},
            }
        }
        k = k + 1;
    }
}

proof fn lemma_relax_bookkeeping(
    dprev: Seq<usize>,
    d: Seq<usize>,
    d1: Seq<usize>,
    hprev: Multiset<NodeCost>,
    h: Multiset<NodeCost>,
    h1: Multiset<NodeCost>,
    tprev: Seq<NodeId>,
    t: Seq<NodeId>,
    x: int,
    e: NodeCost,
)
    requires
        0 <= x < dprev.len(),
        dprev.len() == d1.len(),
        e.node == x,
        e.cost < dprev[x],
        d == dprev.update(x, e.cost),
        h == hprev.insert(e),
        t == tprev.push(x as usize),
        forall|v: int| 0 <= v < dprev.len() ==> #[trigger] dprev[v] <= d1[v],
        forall|v: int|
            0 <= v < dprev.len() && #[trigger] dprev[v] < d1[v] ==> heap_has(hprev, v, dprev[v] as int),
        forall|v: int|
            0 <= v < dprev.len() && #[trigger] dprev[v] == d1[v] && heap_has(h1, v, d1[v] as int)
                ==> heap_has(hprev, v, dprev[v] as int),
        entries_ok(dprev, hprev),
        touched_ok(dprev, tprev),
    ensures
        forall|v: int| 0 <= v < d.len() ==> #[trigger] d[v] <= d1[v],
        forall|v: int| 0 <= v < d.len() && #[trigger] d[v] < d1[v] ==> heap_has(h, v, d[v] as int),
        forall|v: int|
            0 <= v < d.len() && #[trigger] d[v] == d1[v] && heap_has(h1, v, d1[v] as int)
                ==> heap_has(h, v, d[v] as int),
        entries_ok(d, h),
        touched_ok(d, t),
        h.len() == hprev.len() + 1,
{
    broadcast use vstd::multiset::group_multiset_axioms;

    assert(heap_has(h, x, e.cost as int));
    assert forall|v: int| 0 <= v < d.len() && #[trigger] d[v] < d1[v] implies heap_has(h, v, d[v] as int) by {
        if v != x {
            lemma_heap_push_keeps(hprev, e, v, d[v] as int);
        }
    }
    assert forall|v: int|
        0 <= v < d.len() && #[trigger] d[v] == d1[v] && heap_has(h1, v, d1[v] as int) implies heap_has(
        h,
        v,
        d[v] as int,
    ) by {
        if v != x {
            lemma_heap_push_keeps(hprev, e, v, d[v] as int);
        }
    }
    assert forall|y: NodeCost| #[trigger] h.count(y) > 0 implies y.node < d.len() && y.cost >= d[y.node as int]
        && y.cost < usize::MAX by {
        if y != e {
            assert(hprev.count(y) > 0);
        }
    }
    assert forall|v: int| 0 <= v < d.len() && #[trigger] d[v] != usize::MAX implies t.contains(v as usize) by {
        if v == x {
            assert(t[t.len() - 1] == x);
        } else {
            assert(dprev[v] != usize::MAX);
            assert(tprev.contains(v as usize));
            let j = choose|j: int| 0 <= j < tprev.len() && tprev[j] == v as usize;
            assert(t[j] == v as usize);
        }
    }
    assert forall|j: int| 0 <= j < t.len() implies #[trigger] t[j] < d.len() by {
        if j < tprev.len() {
            assert(t[j] == tprev[j]);
        }
    }
}

/// Takes a cheapest entry off the frontier of one direction and, unless it
/// is stale, offers its node as a meeting point and relaxes its half-edges.
fn settle(
    graph: &ChGraph,
    mode: OffsetMode,
    dist: &mut Vec<usize>,
    touched: &mut Vec<NodeId>,
    heap: &mut Frontier,
    other: &Vec<usize>,
    other_heap: &Frontier,
    best: &mut usize,
    Ghost(src): Ghost<int>,
    Ghost(other_src): Ghost<int>,
)
    requires
        graph@.wf(),
        old(heap).wf(),
        old(heap)@.len() > 0,
        side_ok(graph@, mode, src, old(dist)@, old(heap)@),
        side_ok(graph@, flip(mode), other_src, other@, other_heap@),
        meet_oriented(
            graph@,
            mode,
            src,
            other_src,
            old(dist)@,
            other@,
            old(heap)@,
            other_heap@,
            *old(best),
        ),
        touched_ok(old(dist)@, old(touched)@),
    ensures
        final(heap).wf(),
        side_ok(graph@, mode, src, final(dist)@, final(heap)@),
        meet_oriented(
            graph@,
            mode,
            src,
            other_src,
            final(dist)@,
            other@,
            final(heap)@,
            other_heap@,
            *final(best),
        ),
        touched_ok(final(dist)@, final(touched)@),
        *final(best) <= *old(best),
        seq_sum(final(dist)@) + final(heap)@.len() < seq_sum(old(dist)@) + old(heap)@.len(),
{
    broadcast use vstd::multiset::group_multiset_axioms;

    let ghost g = graph@;
    let ghost d0 = dist@;
    let ghost h0 = heap@;
    let ghost best0 = *best;
    let entry = match heap.pop_min() {
        Some(e) => e,
        None => {
            return;
        },
    };
    let node = entry.node;
    let cost = entry.cost;
    let ghost h1 = heap@;
    proof {
        assert(h0.count(entry) > 0);
        assert(h1 == h0.remove(entry));
        assert(h1.len() == h0.len() - 1);
        assert(d0.len() == dist.len());
        assert forall|v: int|
            0 <= v < d0.len() && #[trigger] d0[v] < usize::MAX && heap_has(h0, v, d0[v] as int) && (
            v != node || cost != d0[v]) implies heap_has(h1, v, d0[v] as int) by {
            assert(v as usize == v);
            assert(d0[v] as usize == d0[v]);
            lemma_heap_remove_keeps(h0, entry, v, d0[v] as int);
        }
        assert forall|y: NodeCost| #[trigger] h1.count(y) > 0 implies y.node < d0.len() && y.cost
            >= d0[y.node as int] && y.cost < usize::MAX by {
            assert(h0.count(y) > 0);
        }
        lemma_seq_sum_nonneg(d0);
    }
    if cost > dist[node] {
        proof {
            lemma_settle_stale(g, mode, src, other_src, d0, other@, h0, h1, other_heap@, best0, node as int, cost as int);
        }
        return;
    }
    if other[node] != usize::MAX {
        match cost.checked_add(other[node]) {
            Some(c) => {
                if c < *best {
                    *best = c;
                    proof {
                        assert(reaches(g, mode, src, node as int, cost as int));
                        assert(reaches(g, flip(mode), other_src, node as int, other@[node as int] as int));
                        match mode {
                            OffsetMode::Out => {
                                assert(ch_path(g, src, other_src, c as int));
                            },
                            OffsetMode::In => {
                                assert(ch_path(g, other_src, src, other@[node as int] + cost));
                            },
                        }
                    }
                }
            },
            None => {},
        }
    }
    relax_edges(graph, mode, dist, touched, heap, node, cost, Ghost(src));
    proof {
        lemma_settle_done(g, mode, src, other_src, d0, dist@, other@, h0, h1, heap@, other_heap@, best0, *best, node as int, cost as int);
    }
}

proof fn lemma_settle_stale(
    g: ChGraphView,
    mode: OffsetMode,
    src: int,
    other_src: int,
    d0: Seq<usize>,
    os: Seq<usize>,
    h0: Multiset<NodeCost>,
    h1: Multiset<NodeCost>,
    oh: Multiset<NodeCost>,
    best: usize,
    node: int,
    cost: int,
)
    requires
        side_ok(g, mode, src, d0, h0),
        meet_oriented(g, mode, src, other_src, d0, os, h0, oh, best),
        os.len() == d0.len(),
        0 <= node < d0.len(),
        cost > d0[node],
        forall|v: int|
            0 <= v < d0.len() && #[trigger] d0[v] < usize::MAX && heap_has(h0, v, d0[v] as int) && (v
                != node || cost != d0[v]) ==> heap_has(h1, v, d0[v] as int),
        entries_ok(d0, h1),
    ensures
        side_ok(g, mode, src, d0, h1),
        meet_oriented(g, mode, src, other_src, d0, os, h1, oh, best),
{
    assert forall|m: int|
        0 <= m < d0.len() && #[trigger] d0[m] < usize::MAX && os[m] < usize::MAX && heap_has(h0, m, d0[m] as int)
            implies heap_has(h1, m, d0[m] as int) by {
    }
    assert forall|v: int|
        0 <= v < d0.len() && #[trigger] d0[v] < usize::MAX implies relaxed(g, mode, d0, v) || heap_has(
        h1,
        v,
        d0[v] as int,
    ) by {
    }
}

proof fn lemma_settle_done(
    g: ChGraphView,
    mode: OffsetMode,
    src: int,
    other_src: int,
    d0: Seq<usize>,
    d2: Seq<usize>,
    os: Seq<usize>,
    h0: Multiset<NodeCost>,
    h1: Multiset<NodeCost>,
    h2: Multiset<NodeCost>,
    oh: Multiset<NodeCost>,
    best0: usize,
    best: usize,
    node: int,
    cost: int,
)
    requires
        g.wf(),
        side_ok(g, mode, src, d0, h0),
        meet_oriented(g, mode, src, other_src, d0, os, h0, oh, best0),
        os.len() == d0.len(),
        0 <= node < d0.len(),
        cost == d0[node],
        best <= best0,
        best < usize::MAX ==> (match mode {
            OffsetMode::Out => ch_path(g, src, other_src, best as int),
            OffsetMode::In => ch_path(g, other_src, src, best as int),
        }),
        os[node] < usize::MAX ==> best <= cost + os[node],
        forall|v: int|
            0 <= v < d0.len() && #[trigger] d0[v] < usize::MAX && heap_has(h0, v, d0[v] as int) && (v
                != node || cost != d0[v]) ==> heap_has(h1, v, d0[v] as int),
        d2.len() == d0.len(),
        d2[node] == cost,
        d2[src] == 0,
        forall|v: int| 0 <= v < d2.len() ==> #[trigger] d2[v] <= d0[v],
        forall|v: int|
            0 <= v < d2.len() && #[trigger] d2[v] < usize::MAX ==> reaches(g, mode, src, v, d2[v] as int),
        forall|v: int| 0 <= v < d2.len() && #[trigger] d2[v] < d0[v] ==> heap_has(h2, v, d2[v] as int),
        forall|v: int|
            0 <= v < d2.len() && #[trigger] d2[v] == d0[v] && heap_has(h1, v, d0[v] as int) ==> heap_has(
                h2,
                v,
                d2[v] as int,
            ),
        entries_ok(d2, h2),
        relaxed(g, mode, d2, node),
    ensures
        side_ok(g, mode, src, d2, h2),
        meet_oriented(g, mode, src, other_src, d2, os, h2, oh, best),
{
    assert forall|v: int|
        0 <= v < d2.len() && #[trigger] d2[v] < usize::MAX implies relaxed(g, mode, d2, v) || heap_has(
        h2,
        v,
        d2[v] as int,
    ) by {
        if v != node && d2[v] == d0[v] {
            if relaxed(g, mode, d0, v) {
                lemma_edges_in_range(g, mode, v);
                lemma_relaxed_mono(g, mode, d0, d2, v);
            } else {
                assert(heap_has(h0, v, d0[v] as int));
                assert(heap_has(h1, v, d0[v] as int));
            }
        }
    }
    assert forall|m: int|
        0 <= m < d2.len() && #[trigger] d2[m] < usize::MAX && os[m] < usize::MAX implies best <= d2[m]
        + os[m] || heap_has(h2, m, d2[m] as int) || heap_has(oh, m, os[m] as int) by {
        if m != node && d2[m] == d0[m] {
            if !heap_has(oh, m, os[m] as int) && best > d2[m] + os[m] {
                assert(best0 > d0[m] + os[m]);
                assert(heap_has(h0, m, d0[m] as int));
                assert(heap_has(h1, m, d0[m] as int));
            }
        }
    }
}

/// Once neither frontier holds an entry at or below `best`, `best` is the
/// least up-down path weight.
proof fn lemma_search_done(
    g: ChGraphView,
    s: int,
    t: int,
    ds: Seq<usize>,
    dt: Seq<usize>,
    hs: Multiset<NodeCost>,
    ht: Multiset<NodeCost>,
    best: usize,
)
    requires
        side_ok(g, OffsetMode::Out, s, ds, hs),
        side_ok(g, OffsetMode::In, t, dt, ht),
        meet_ok(g, s, t, ds, dt, hs, ht, best),
        forall|e: NodeCost| #[trigger] hs.count(e) > 0 ==> e.cost > best,
        forall|e: NodeCost| #[trigger] ht.count(e) > 0 ==> e.cost > best,
    ensures
        is_ch_distance(g, s, t, best),
{
    assert forall|d: int| #[trigger] ch_path(g, s, t, d) implies best <= d by {
        let (m, a, b) = choose|m: int, a: int, b: int|
            #[trigger] reaches(g, OffsetMode::Out, s, m, a) && #[trigger] reaches(
                g,
                OffsetMode::In,
                t,
                m,
                b,
            ) && a + b == d;
        let (ns1, ks1) = choose|ns: Seq<int>, ks: Seq<int>|
            #[trigger] is_walk(g, OffsetMode::Out, ns, ks) && ns[0] == s && ns.last() == m
                && walk_weight(g, OffsetMode::Out, ns, ks) == a;
        let (ns2, ks2) = choose|ns: Seq<int>, ks: Seq<int>|
            #[trigger] is_walk(g, OffsetMode::In, ns, ks) && ns[0] == t && ns.last() == m
                && walk_weight(g, OffsetMode::In, ns, ks) == b;
        lemma_walk_weight_nonneg(g, OffsetMode::Out, ns1, ks1);
        lemma_walk_weight_nonneg(g, OffsetMode::In, ns2, ks2);
        lemma_climb_bound(g, OffsetMode::Out, s, ds, hs, ns1, ks1);
        lemma_climb_bound(g, OffsetMode::In, t, dt, ht, ns2, ks2);
        assert(0 <= m < g.node_count());
        if heap_below(hs, a) {
            let e = choose|e: NodeCost| #[trigger] hs.count(e) > 0 && e.cost <= a;
            assert(e.cost > best);
        } else if heap_below(ht, b) {
            let e = choose|e: NodeCost| #[trigger] ht.count(e) > 0 && e.cost <= b;
            assert(e.cost > best);
        } else if a >= usize::MAX || b >= usize::MAX {
        } else {
            assert(ds[m] <= a && dt[m] <= b);
            if heap_has(hs, m, ds[m] as int) {
                assert(hs.count(NodeCost { node: m as usize, cost: ds[m] }) > 0);
            } else if heap_has(ht, m, dt[m] as int) {
                assert(ht.count(NodeCost { node: m as usize, cost: dt[m] }) > 0);
            }
        }
    }
}

/// Sets every entry of `dist` back to `usize::MAX`, visiting only the
/// touched ones, and empties `touched`.
fn reset(dist: &mut Vec<usize>, touched: &mut Vec<NodeId>)
    requires
        touched_ok(old(dist)@, old(touched)@),
    ensures
        final(dist).len() == old(dist).len(),
        forall|v: int| 0 <= v < final(dist).len() ==> #[trigger] final(dist)@[v] == usize::MAX,
        final(touched)@.len() == 0,
{
    let ghost d0 = dist@;
    let mut i: usize = 0;
    while i < touched.len()
        invariant
            0 <= i <= touched.len(),
            dist.len() == d0.len(),
            forall|j: int| 0 <= j < touched.len() ==> #[trigger] touched@[j] < dist.len(),
            forall|v: int|
                0 <= v < dist.len() && #[trigger] dist@[v] != usize::MAX ==> exists|j: int|
                    i <= j < touched.len() && touched@[j] == v as usize,
        decreases touched.len() - i,
    {
        let v = touched[i];
        dist.set(v, usize::MAX);
        proof {
            assert forall|w: int|
                0 <= w < dist.len() && #[trigger] dist@[w] != usize::MAX implies exists|j: int|
                i + 1 <= j < touched.len() && touched@[j] == w as usize by {
                let j = choose|j: int| i <= j < touched.len() && touched@[j] == w as usize;
                assert(j != i);
            }
        }
        i = i + 1;
    }
    touched.clear();
}

/// A query session over one graph: the scratch state of both directions,
/// kept between queries and reset lazily.
pub struct ChDijkstra<'a> {
    s_dist: Vec<Length>,
    t_dist: Vec<Length>,
    s_touched: Vec<NodeId>,
    t_touched: Vec<NodeId>,
    graph: &'a ChGraph,
}

impl ChGraph {
    /// A new query session over this graph.
    pub fn dijkstra(&self) -> (r: ChDijkstra<'_>)
        requires
            self@.wf(),
        ensures
            r.wf(),
            r.graph_view() == self@,
            r.graph() == self,
            r.s_dist().len() == self@.node_count(),
            r.t_dist().len() == self@.node_count(),
            forall|v: int| 0 <= v < self@.node_count() ==> #[trigger] r.s_dist()[v] == usize::MAX,
            forall|v: int| 0 <= v < self@.node_count() ==> #[trigger] r.t_dist()[v] == usize::MAX,
            r.s_touched().len() == 0,
            r.t_touched().len() == 0,
    {
        let n = self.node_count();
        let r = ChDijkstra {
            s_dist: vec![usize::MAX; n],
            t_dist: vec![usize::MAX; n],
            s_touched: Vec::new(),
            t_touched: Vec::new(),
            graph: self,
        };
        proof {
            assert forall|v: int| 0 <= v < n implies #[trigger] r.s_dist@[v] == usize::MAX && r.t_dist@[v]
                == usize::MAX by {
                assert(cloned(usize::MAX, r.s_dist@[v]));
                assert(cloned(usize::MAX, r.t_dist@[v]));
            }
        }
        r
    }
}

impl<'a> ChDijkstra<'a> {
    /// The graph the session searches.
    pub closed spec fn graph_view(&self) -> ChGraphView {
        self.graph@
    }

    /// The graph the session borrows.
    pub closed spec fn graph(&self) -> &'a ChGraph {
        self.graph
    }

    /// The forward tentative distances, `usize::MAX` where not reached.
    pub closed spec fn s_dist(&self) -> Seq<Length> {
        self.s_dist@
    }

    /// The backward tentative distances, `usize::MAX` where not reached.
    pub closed spec fn t_dist(&self) -> Seq<Length> {
        self.t_dist@
    }

    /// The nodes whose forward distance may be finite.
    pub closed spec fn s_touched(&self) -> Seq<NodeId> {
        self.s_touched@
    }

    /// The nodes whose backward distance may be finite.
    pub closed spec fn t_touched(&self) -> Seq<NodeId> {
        self.t_touched@
    }

    pub closed spec fn wf(&self) -> bool {
        &&& self.graph@.wf()
        &&& self.s_dist.len() == self.graph@.node_count()
        &&& self.t_dist.len() == self.graph@.node_count()
        &&& touched_ok(self.s_dist@, self.s_touched@)
        &&& touched_ok(self.t_dist@, self.t_touched@)
    }

    /// The least weight of an up-down path from `s` to `t`, or `usize::MAX`
    /// when `t` cannot be reached that way. On a genuine contraction
    /// hierarchy this is the shortest distance from `s` to `t`.
    pub fn distance(&mut self, s: NodeId, t: NodeId) -> (r: Length)
        requires
            old(self).wf(),
            s < old(self).graph_view().node_count(),
            t < old(self).graph_view().node_count(),
        ensures
            final(self).wf(),
            final(self).graph_view() == old(self).graph_view(),
            final(self).graph() == old(self).graph(),
            is_ch_distance(old(self).graph_view(), s as int, t as int, r),
    {
        let ghost g = self.graph@;
        let ghost gr = self.graph;
        reset(&mut self.s_dist, &mut self.s_touched);
        reset(&mut self.t_dist, &mut self.t_touched);
        self.s_dist.set(s, 0);
        self.s_touched.push(s);
        self.t_dist.set(t, 0);
        self.t_touched.push(t);
        proof {
            lemma_walk_empty(g, OffsetMode::Out, s as int);
            lemma_walk_empty(g, OffsetMode::In, t as int);
            assert(self.s_touched@[0] == s);
            assert(self.t_touched@[0] == t);
        }
        if s == t {
            proof {
                assert(ch_path(g, s as int, t as int, 0));
                assert forall|d: int| #[trigger] ch_path(g, s as int, t as int, d) implies 0 <= d by {
                    lemma_ch_path_nonneg(g, s as int, t as int, d);
                }
            }
            return 0;
        }
        let mut s_heap = Frontier::new();
        s_heap.push(NodeCost { node: s, cost: 0 });
        let mut t_heap = Frontier::new();
        t_heap.push(NodeCost { node: t, cost: 0 });
        let mut best: usize = usize::MAX;
        proof {
            broadcast use vstd::multiset::group_multiset_axioms;

            assert(heap_has(s_heap@, s as int, 0));
            assert(heap_has(t_heap@, t as int, 0));
            assert forall|e: NodeCost| #[trigger] s_heap@.count(e) > 0 implies e == (NodeCost {
                node: s,
                cost: 0,
            }) by {}
            assert forall|e: NodeCost| #[trigger] t_heap@.count(e) > 0 implies e == (NodeCost {
                node: t,
                cost: 0,
            }) by {}
            lemma_seq_sum_nonneg(self.s_dist@);
            lemma_seq_sum_nonneg(self.t_dist@);
        }
        loop
            invariant
                self.graph@ == g,
                self.graph == gr,
                g.wf(),
                s < g.node_count(),
                t < g.node_count(),
                s_heap.wf(),
                t_heap.wf(),
                side_ok(g, OffsetMode::Out, s as int, self.s_dist@, s_heap@),
                side_ok(g, OffsetMode::In, t as int, self.t_dist@, t_heap@),
                meet_ok(g, s as int, t as int, self.s_dist@, self.t_dist@, s_heap@, t_heap@, best),
                touched_ok(self.s_dist@, self.s_touched@),
                touched_ok(self.t_dist@, self.t_touched@),
            ensures
                self.graph@ == g,
                self.graph == gr,
                self.wf(),
                is_ch_distance(g, s as int, t as int, best),
            decreases seq_sum(self.s_dist@) + seq_sum(self.t_dist@) + s_heap@.len() + t_heap@.len(),
        {
            proof {
                lemma_seq_sum_nonneg(self.s_dist@);
                lemma_seq_sum_nonneg(self.t_dist@);
            }
            let s_open = match s_heap.peek_min() {
                Some(e) => e.cost <= best,
                None => false,
            };
            let t_open = match t_heap.peek_min() {
                Some(e) => e.cost <= best,
                None => false,
            };
            if !s_open && !t_open {
                proof {
                    lemma_search_done(g, s as int, t as int, self.s_dist@, self.t_dist@, s_heap@, t_heap@, best);
                }
                break;
            }
            let ghost before = seq_sum(self.s_dist@) + seq_sum(self.t_dist@) + s_heap@.len()
                + t_heap@.len();
            if s_open {
                settle(
                    self.graph,
                    OffsetMode::Out,
                    &mut self.s_dist,
                    &mut self.s_touched,
                    &mut s_heap,
                    &self.t_dist,
                    &t_heap,
                    &mut best,
                    Ghost(s as int),
                    Ghost(t as int),
                );
            }
            if t_open {
                settle(
                    self.graph,
                    OffsetMode::In,
                    &mut self.t_dist,
                    &mut self.t_touched,
                    &mut t_heap,
                    &self.s_dist,
                    &s_heap,
                    &mut best,
                    Ghost(t as int),
                    Ghost(s as int),
                );
            }
            proof {
                lemma_seq_sum_nonneg(self.s_dist@);
                lemma_seq_sum_nonneg(self.t_dist@);
                assert(seq_sum(self.s_dist@) + seq_sum(self.t_dist@) + s_heap@.len() + t_heap@.len()
                    < before);
            }
        }
        best
    }
}

proof fn lemma_ch_path_nonneg(g: ChGraphView, s: int, t: int, d: int)
    requires
        ch_path(g, s, t, d),
    ensures
        0 <= d,
{
    let (m, a, b) = choose|m: int, a: int, b: int|
        #[trigger] reaches(g, OffsetMode::Out, s, m, a) && #[trigger] reaches(g, OffsetMode::In, t, m, b)
            && a + b == d;
    let (ns1, ks1) = choose|ns: Seq<int>, ks: Seq<int>|
        #[trigger] is_walk(g, OffsetMode::Out, ns, ks) && ns[0] == s && ns.last() == m && walk_weight(
            g,
            OffsetMode::Out,
            ns,
            ks,
        ) == a;
    let (ns2, ks2) = choose|ns: Seq<int>, ks: Seq<int>|
        #[trigger] is_walk(g, OffsetMode::In, ns, ks) && ns[0] == t && ns.last() == m && walk_weight(
            g,
            OffsetMode::In,
            ns,
            ks,
        ) == b;
    lemma_walk_weight_nonneg(g, OffsetMode::Out, ns1, ks1);
    lemma_walk_weight_nonneg(g, OffsetMode::In, ns2, ks2);
}

/// A node's distance to itself is zero.
pub proof fn lemma_zero_distance(g: ChGraphView, n: int, r: usize)
    requires
        0 <= n < g.node_count(),
        is_ch_distance(g, n, n, r),
    ensures
        r == 0,
{
    lemma_walk_empty(g, OffsetMode::Out, n);
    lemma_walk_empty(g, OffsetMode::In, n);
    assert(ch_path(g, n, n, 0));
}

/// The distance is a function of the graph and the two nodes: two answers
/// to the same query agree, however the session was used before.
pub proof fn lemma_distance_deterministic(g: ChGraphView, s: int, t: int, r1: usize, r2: usize)
    requires
        is_ch_distance(g, s, t, r1),
        is_ch_distance(g, s, t, r2),
    ensures
        r1 == r2,
{
    if r1 < usize::MAX {
        assert(ch_path(g, s, t, r1 as int));
    }
    if r2 < usize::MAX {
        assert(ch_path(g, s, t, r2 as int));
    }
}

/// No half-edge joins a node inside `comp` to a node outside it.
pub open spec fn separates(g: ChGraphView, comp: Set<int>) -> bool {
    &&& forall|u: int, k: int|
        0 <= u < g.node_count() && 0 <= k < g.out_slice(u).len() ==> (comp.contains(
            (#[trigger] g.out_slice(u)[k]).endpoint as int,
        ) <==> comp.contains(u))
    &&& forall|u: int, k: int|
        0 <= u < g.node_count() && 0 <= k < g.in_slice(u).len() ==> (comp.contains(
            (#[trigger] g.in_slice(u)[k]).endpoint as int,
        ) <==> comp.contains(u))
}

proof fn lemma_walk_stays(
    g: ChGraphView,
    mode: OffsetMode,
    comp: Set<int>,
    ns: Seq<int>,
    ks: Seq<int>,
)
    requires
        separates(g, comp),
        is_walk(g, mode, ns, ks),
    ensures
        comp.contains(ns.last()) <==> comp.contains(ns[0]),
    decreases ks.len(),
{
    if ks.len() > 0 {
        lemma_walk_prefix(g, mode, ns, ks);
        lemma_walk_stays(g, mode, comp, ns.drop_last(), ks.drop_last());
        let u = ns[ks.len() - 1];
        let k = ks.last();
        assert(0 <= u < g.node_count());
        match mode {
            OffsetMode::Out => {
                assert(comp.contains(g.out_slice(u)[k].endpoint as int) <==> comp.contains(u));
            },
            OffsetMode::In => {
                assert(comp.contains(g.in_slice(u)[k].endpoint as int) <==> comp.contains(u));
            },
        }
    }
}

/// Between two parts of the graph that no edge joins, the distance is the
/// unreachable value `usize::MAX`.
pub proof fn lemma_disconnected_unreachable(g: ChGraphView, comp: Set<int>, a: int, b: int, r: usize)
    requires
        separates(g, comp),
        comp.contains(a),
        !comp.contains(b),
        is_ch_distance(g, a, b, r),
    ensures
        r == usize::MAX,
{
    if r < usize::MAX {
        let d = r as int;
        assert(ch_path(g, a, b, d));
        let (m, x, y) = choose|m: int, x: int, y: int|
            #[trigger] reaches(g, OffsetMode::Out, a, m, x) && #[trigger] reaches(g, OffsetMode::In, b, m, y)
                && x + y == d;
        let (ns1, ks1) = choose|ns: Seq<int>, ks: Seq<int>|
            #[trigger] is_walk(g, OffsetMode::Out, ns, ks) && ns[0] == a && ns.last() == m
                && walk_weight(g, OffsetMode::Out, ns, ks) == x;
        let (ns2, ks2) = choose|ns: Seq<int>, ks: Seq<int>|
            #[trigger] is_walk(g, OffsetMode::In, ns, ks) && ns[0] == b && ns.last() == m
                && walk_weight(g, OffsetMode::In, ns, ks) == y;
        lemma_walk_stays(g, OffsetMode::Out, comp, ns1, ks1);
        lemma_walk_stays(g, OffsetMode::In, comp, ns2, ks2);
    }
}

/// Every node's out-slice and in-slice hold the same half-edges: each edge
/// has a mirror edge of the same weight.
pub open spec fn mirrored(g: ChGraphView) -> bool {
    forall|u: int|
        0 <= u < g.node_count() ==> (#[trigger] g.out_slice(u)).to_multiset() == g.in_slice(
            u,
        ).to_multiset()
}

/// On a mirrored graph a climb in one direction is a climb in the other,
/// through the same nodes and of the same weight.
proof fn lemma_mirror_walk(g: ChGraphView, mode: OffsetMode, ns: Seq<int>, ks: Seq<int>) -> (ks2: Seq<int>)
    requires
        mirrored(g),
        is_walk(g, mode, ns, ks),
    ensures
        is_walk(g, flip(mode), ns, ks2),
        walk_weight(g, flip(mode), ns, ks2) == walk_weight(g, mode, ns, ks),
    decreases ks.len(),
{
    broadcast use vstd::seq_lib::group_to_multiset_ensures;

    if ks.len() == 0 {
        assert(is_walk(g, flip(mode), ns, ks));
        ks
    } else {
        lemma_walk_prefix(g, mode, ns, ks);
        let ns0 = ns.drop_last();
        let ks0 = lemma_mirror_walk(g, mode, ns0, ks.drop_last());
        let u = ns[ks.len() - 1];
        let h = edges_of(g, mode, u)[ks.last()];
        assert(0 <= u < g.node_count());
        assert(edges_of(g, mode, u).contains(h));
        assert(edges_of(g, mode, u).to_multiset() == edges_of(g, flip(mode), u).to_multiset());
        assert(edges_of(g, flip(mode), u).to_multiset().count(h) > 0);
        assert(edges_of(g, flip(mode), u).contains(h));
        let k2 = choose|k2: int| 0 <= k2 < edges_of(g, flip(mode), u).len() && edges_of(g, flip(mode), u)[k2] == h;
        assert(step_ok(g, flip(mode), u, k2, ns.last()));
        assert(ns0.last() == u);
        lemma_walk_extend(g, flip(mode), ns0, ks0, k2, ns.last());
        assert(ns0.push(ns.last()) =~= ns);
        ks0.push(k2)
    }
}

/// On a mirrored graph the distance from `s` to `t` equals the distance
/// from `t` to `s`.
pub proof fn lemma_distance_symmetric(g: ChGraphView, s: int, t: int, r1: usize, r2: usize)
    requires
        mirrored(g),
        is_ch_distance(g, s, t, r1),
        is_ch_distance(g, t, s, r2),
    ensures
        r1 == r2,
{
    assert forall|a: int, b: int, d: int| #[trigger] ch_path(g, a, b, d) implies ch_path(g, b, a, d) by {
        let (m, x, y) = choose|m: int, x: int, y: int|
            #[trigger] reaches(g, OffsetMode::Out, a, m, x) && #[trigger] reaches(g, OffsetMode::In, b, m, y)
                && x + y == d;
        let (ns1, ks1) = choose|ns: Seq<int>, ks: Seq<int>|
            #[trigger] is_walk(g, OffsetMode::Out, ns, ks) && ns[0] == a && ns.last() == m
                && walk_weight(g, OffsetMode::Out, ns, ks) == x;
        let (ns2, ks2) = choose|ns: Seq<int>, ks: Seq<int>|
            #[trigger] is_walk(g, OffsetMode::In, ns, ks) && ns[0] == b && ns.last() == m
                && walk_weight(g, OffsetMode::In, ns, ks) == y;
        let ks1m = lemma_mirror_walk(g, OffsetMode::Out, ns1, ks1);
        let ks2m = lemma_mirror_walk(g, OffsetMode::In, ns2, ks2);
        assert(reaches(g, OffsetMode::In, a, m, x));
        assert(reaches(g, OffsetMode::Out, b, m, y));
    }
    if r1 < usize::MAX {
        assert(ch_path(g, t, s, r1 as int));
    }
    if r2 < usize::MAX {
        assert(ch_path(g, s, t, r2 as int));
    }
}

/// `ns` are the nodes of a route along out-slices, with no level condition,
/// and `ks` the slice positions taken between them.
pub open spec fn is_route(g: ChGraphView, ns: Seq<int>, ks: Seq<int>) -> bool {
    &&& ns.len() == ks.len() + 1
    &&& forall|j: int| 0 <= j < ns.len() ==> 0 <= #[trigger] ns[j] < g.node_count()
    &&& forall|j: int|
        0 <= j < ks.len() ==> 0 <= #[trigger] ks[j] < g.out_slice(ns[j]).len() && g.out_slice(
            ns[j],
        )[ks[j]].endpoint == ns[j + 1]
}

/// Some route of weight `d` leads from `a` to `c`.
pub open spec fn route(g: ChGraphView, a: int, c: int, d: int) -> bool {
    exists|ns: Seq<int>, ks: Seq<int>|
        #[trigger] is_route(g, ns, ks) && ns[0] == a && ns.last() == c && walk_weight(
            g,
            OffsetMode::Out,
            ns,
            ks,
        ) == d
}

/// The graph is a genuine contraction hierarchy: for every route there is an
/// up-down path between the same nodes that is no heavier.
pub open spec fn is_hierarchy(g: ChGraphView) -> bool {
    forall|a: int, c: int, d: int|
        #[trigger] route(g, a, c, d) ==> exists|d2: int| d2 <= d && #[trigger] ch_path(g, a, c, d2)
}

proof fn lemma_route_extend(g: ChGraphView, ns: Seq<int>, ks: Seq<int>, k: int, x: int)
    requires
        is_route(g, ns, ks),
        0 <= k < g.out_slice(ns.last()).len(),
        g.out_slice(ns.last())[k].endpoint == x,
        0 <= x < g.node_count(),
    ensures
        is_route(g, ns.push(x), ks.push(k)),
        walk_weight(g, OffsetMode::Out, ns.push(x), ks.push(k)) == walk_weight(
            g,
            OffsetMode::Out,
            ns,
            ks,
        ) + g.out_slice(ns.last())[k].weight,
{
    let ns2 = ns.push(x);
    let ks2 = ks.push(k);
    assert(ns2.drop_last() =~= ns);
    assert(ks2.drop_last() =~= ks);
    assert forall|j: int| 0 <= j < ks2.len() implies 0 <= #[trigger] ks2[j] < g.out_slice(ns2[j]).len()
        && g.out_slice(ns2[j])[ks2[j]].endpoint == ns2[j + 1] by {
        if j < ks.len() {
            assert(ks2[j] == ks[j]);
            assert(ns2[j] == ns[j]);
            assert(ns2[j + 1] == ns[j + 1]);
        }
    }
}

proof fn lemma_route_from_walk(g: ChGraphView, ns: Seq<int>, ks: Seq<int>)
    requires
        is_walk(g, OffsetMode::Out, ns, ks),
    ensures
        is_route(g, ns, ks),
{
    assert forall|j: int| 0 <= j < ks.len() implies 0 <= #[trigger] ks[j] < g.out_slice(ns[j]).len()
        && g.out_slice(ns[j])[ks[j]].endpoint == ns[j + 1] by {
        assert(step_ok(g, OffsetMode::Out, ns[j], ks[j], ns[j + 1]));
    }
}

/// Two routes that meet make one.
proof fn lemma_route_concat(g: ChGraphView, a: int, b: int, c: int, d1: int, ns: Seq<int>, ks: Seq<int>)
    requires
        route(g, a, b, d1),
        is_route(g, ns, ks),
        ns[0] == b,
        ns.last() == c,
    ensures
        route(g, a, c, d1 + walk_weight(g, OffsetMode::Out, ns, ks)),
    decreases ks.len(),
{
    if ks.len() == 0 {
        assert(ns.last() == ns[0]);
        assert(walk_weight(g, OffsetMode::Out, ns, ks) == 0);
    } else {
        let ns0 = ns.drop_last();
        let ks0 = ks.drop_last();
        assert(is_route(g, ns0, ks0)) by {
            assert forall|j: int| 0 <= j < ks0.len() implies 0 <= #[trigger] ks0[j] < g.out_slice(
                ns0[j],
            ).len() && g.out_slice(ns0[j])[ks0[j]].endpoint == ns0[j + 1] by {
                assert(ks0[j] == ks[j]);
                assert(0 <= ks[j] < g.out_slice(ns[j]).len());
            }
        }
        lemma_route_concat(g, a, b, ns0.last(), d1, ns0, ks0);
        let d0 = d1 + walk_weight(g, OffsetMode::Out, ns0, ks0);
        let (ms, js) = choose|ms: Seq<int>, js: Seq<int>|
            #[trigger] is_route(g, ms, js) && ms[0] == a && ms.last() == ns0.last() && walk_weight(
                g,
                OffsetMode::Out,
                ms,
                js,
            ) == d0;
        let k = ks.last();
        assert(0 <= ks[ks.len() - 1] < g.out_slice(ns[ks.len() - 1]).len());
        assert(ns0.last() == ns[ks.len() - 1]);
        lemma_route_extend(g, ms, js, k, c);
        assert(ms.push(c)[0] == a);
    }
}

/// A backward climb from `b` to `m` read in reverse is a route from `m` to
/// `b` of the same weight.
proof fn lemma_route_from_back_walk(
    g: ChGraphView,
    levels: Seq<Level>,
    edges: Seq<ChEdgeInfo>,
    ns: Seq<int>,
    ks: Seq<int>,
)
    requires
        g.built_from(levels, edges),
        is_walk(g, OffsetMode::In, ns, ks),
    ensures
        route(g, ns.last(), ns[0], walk_weight(g, OffsetMode::In, ns, ks)),
    decreases ks.len(),
{
    broadcast use vstd::seq_lib::group_to_multiset_ensures;

    if ks.len() == 0 {
        let rs = seq![ns[0]];
        let js = Seq::<int>::empty();
        assert(is_route(g, rs, js));
    } else {
        lemma_walk_prefix(g, OffsetMode::In, ns, ks);
        let ns0 = ns.drop_last();
        let ks0 = ks.drop_last();
        lemma_route_from_back_walk(g, levels, edges, ns0, ks0);
        let y = ns[ks.len() - 1];
        let k = ks.last();
        let x = ns.last();
        let h = g.in_slice(y)[k];
        lemma_in_edge_is_out_edge(g, levels, edges, y, k);
        let h2 = HalfEdge { endpoint: y as usize, weight: h.weight };
        let k2 = choose|k2: int| 0 <= k2 < g.out_slice(x).len() && g.out_slice(x)[k2] == h2;
        let one_n = seq![x];
        let one_k = Seq::<int>::empty();
        assert(is_route(g, one_n, one_k));
        assert(route(g, x, x, 0)) by {
            assert(walk_weight(g, OffsetMode::Out, one_n, one_k) == 0);
        }
        assert(0 <= y < g.node_count());
        lemma_route_extend(g, one_n, one_k, k2, y);
        let e_n = one_n.push(y);
        let e_k = one_k.push(k2);
        assert(walk_weight(g, OffsetMode::Out, e_n, e_k) == h.weight) by {
            assert(e_n.drop_last() =~= one_n);
            assert(e_k.drop_last() =~= one_k);
        }
        assert(route(g, x, y, h.weight as int));
        let d0 = walk_weight(g, OffsetMode::In, ns0, ks0);
        let (rs, js) = choose|rs: Seq<int>, js: Seq<int>|
            #[trigger] is_route(g, rs, js) && rs[0] == ns0.last() && rs.last() == ns0[0]
                && walk_weight(g, OffsetMode::Out, rs, js) == d0;
        assert(ns0.last() == y);
        lemma_route_concat(g, x, y, ns[0], h.weight as int, rs, js);
    }
}

/// Every up-down path is a route.
proof fn lemma_route_from_ch_path(
    g: ChGraphView,
    levels: Seq<Level>,
    edges: Seq<ChEdgeInfo>,
    a: int,
    b: int,
    d: int,
)
    requires
        g.built_from(levels, edges),
        ch_path(g, a, b, d),
    ensures
        route(g, a, b, d),
{
    let (m, x, y) = choose|m: int, x: int, y: int|
        #[trigger] reaches(g, OffsetMode::Out, a, m, x) && #[trigger] reaches(g, OffsetMode::In, b, m, y)
            && x + y == d;
    let (ns1, ks1) = choose|ns: Seq<int>, ks: Seq<int>|
        #[trigger] is_walk(g, OffsetMode::Out, ns, ks) && ns[0] == a && ns.last() == m && walk_weight(
            g,
            OffsetMode::Out,
            ns,
            ks,
        ) == x;
    let (ns2, ks2) = choose|ns: Seq<int>, ks: Seq<int>|
        #[trigger] is_walk(g, OffsetMode::In, ns, ks) && ns[0] == b && ns.last() == m && walk_weight(
            g,
            OffsetMode::In,
            ns,
            ks,
        ) == y;
    lemma_route_from_walk(g, ns1, ks1);
    assert(route(g, a, m, x));
    lemma_route_from_back_walk(g, levels, edges, ns2, ks2);
    let (rs, js) = choose|rs: Seq<int>, js: Seq<int>|
        #[trigger] is_route(g, rs, js) && rs[0] == m && rs.last() == b && walk_weight(
            g,
            OffsetMode::Out,
            rs,
            js,
        ) == y;
    lemma_route_concat(g, a, m, b, x, rs, js);
}

/// On a genuine contraction hierarchy built from a list of edges, the
/// distance from `a` to `c` is at most the distance from `a` to `b` plus the
/// distance from `b` to `c`.
pub proof fn lemma_triangle_inequality(
    g: ChGraphView,
    levels: Seq<Level>,
    edges: Seq<ChEdgeInfo>,
    a: int,
    b: int,
    c: int,
    r_ab: usize,
    r_bc: usize,
    r_ac: usize,
)
    requires
        g.built_from(levels, edges),
        is_hierarchy(g),
        is_ch_distance(g, a, b, r_ab),
        is_ch_distance(g, b, c, r_bc),
        is_ch_distance(g, a, c, r_ac),
    ensures
        r_ac <= r_ab + r_bc,
{
    if r_ab < usize::MAX && r_bc < usize::MAX {
        lemma_route_from_ch_path(g, levels, edges, a, b, r_ab as int);
        lemma_route_from_ch_path(g, levels, edges, b, c, r_bc as int);
        let (rs, js) = choose|rs: Seq<int>, js: Seq<int>|
            #[trigger] is_route(g, rs, js) && rs[0] == b && rs.last() == c && walk_weight(
                g,
                OffsetMode::Out,
                rs,
                js,
            ) == r_bc as int;
        lemma_route_concat(g, a, b, c, r_ab as int, rs, js);
        assert(route(g, a, c, r_ab + r_bc));
        let d2 = choose|d2: int| d2 <= r_ab + r_bc && #[trigger] ch_path(g, a, c, d2);
        assert(r_ac <= d2);
    }
}

/// On a graph built from edges where every `(u, v, w)` occurs as often as
/// `(v, u, w)` (ends and weight only), the distance from `s` to `t` equals
/// the distance from `t` to `s`.
pub proof fn lemma_mirrored_edges_symmetric(
    g: ChGraphView,
    levels: Seq<Level>,
    edges: Seq<ChEdgeInfo>,
    s: int,
    t: int,
    r1: usize,
    r2: usize,
)
    requires
        g.built_from(levels, edges),
        edges.map_values(|e: ChEdgeInfo| reversed_ends_and_length(e)).to_multiset() == edges.map_values(
            |e: ChEdgeInfo| ends_and_length(e),
        ).to_multiset(),
        is_ch_distance(g, s, t, r1),
        is_ch_distance(g, t, s, r2),
    ensures
        r1 == r2,
{
    lemma_mirrored_slices(g, levels, edges);
    lemma_distance_symmetric(g, s, t, r1, r2);
}

} // verus!
