//! A leveled road graph in compact adjacency form: one pool of half-edges
//! ordered by source for forward traversal, one ordered by destination for
//! backward traversal, and a shared table of slice offsets per node.
use vstd::multiset::Multiset;
use vstd::prelude::*;
use vstd::seq_lib::{commutative_foldl, lemma_fold_left_permutation};

verus! {

pub type NodeId = usize;

pub type EdgeId = usize;

pub type OsmNodeId = usize;

pub type Length = usize;

pub type Speed = usize;

pub type Height = usize;

pub type Level = usize;

/// A node of the contracted graph. Only the level takes part in a search;
/// the other fields are carried for the loader's sake.
#[derive(PartialEq, Eq, Debug, Clone, Copy)]
pub struct ChNodeInfo {
    pub id: NodeId,
    pub osm_id: OsmNodeId,
    pub height: Height,
    pub level: Level,
}

impl ChNodeInfo {
    pub fn new(id: NodeId, osm_id: OsmNodeId, height: Height, level: Level) -> (r: ChNodeInfo)
        ensures
            r == (ChNodeInfo { id, osm_id, height, level }),
    {
        ChNodeInfo { id, osm_id, height, level }
    }
}

/// A directed edge `source -> dest` of weight `length`. A shortcut names the
/// two edges it replaces; a search ignores them.
#[derive(PartialEq, Eq, Debug, Clone, Copy)]
pub struct ChEdgeInfo {
    pub source: NodeId,
    pub dest: NodeId,
    pub length: Length,
    pub speed: Speed,
    pub edge_a: Option<EdgeId>,
    pub edge_b: Option<EdgeId>,
}

impl ChEdgeInfo {
    pub fn new(
        source: NodeId,
        dest: NodeId,
        length: Length,
        speed: Speed,
        edge_a: Option<EdgeId>,
        edge_b: Option<EdgeId>,
    ) -> (r: ChEdgeInfo)
        ensures
            r == (ChEdgeInfo { source, dest, length, speed, edge_a, edge_b }),
    {
        ChEdgeInfo { source, dest, length, speed, edge_a, edge_b }
    }
}

/// An edge seen from one of its ends: the other end and the weight.
#[derive(PartialEq, Eq, Debug, Clone, Copy)]
pub struct HalfEdge {
    pub endpoint: NodeId,
    pub weight: Length,
}

/// Where the in-slice and the out-slice of a node start.
#[derive(PartialEq, Eq, Debug, Clone, Copy)]
pub struct NodeOffset {
    pub in_start: usize,
    pub out_start: usize,
}

impl NodeOffset {
    pub fn new(in_start: usize, out_start: usize) -> (r: NodeOffset)
        ensures
            r == (NodeOffset { in_start, out_start }),
    {
        NodeOffset { in_start, out_start }
    }
}

/// Which of the two orderings is meant: `In` groups edges by destination,
/// `Out` by source.
#[derive(PartialEq, Eq, Debug, Clone, Copy)]
pub enum OffsetMode {
    In,
    Out,
}

/// A directed edge, seen through its two ends.
pub trait Edge {
    spec fn source_node(&self) -> NodeId;

    spec fn dest_node(&self) -> NodeId;

    fn get_source_id(&self) -> (r: NodeId)
        ensures
            r == self.source_node(),
    ;

    fn get_dest_id(&self) -> (r: NodeId)
        ensures
            r == self.dest_node(),
    ;
}

impl Edge for ChEdgeInfo {
    open spec fn source_node(&self) -> NodeId {
        self.source
    }

    open spec fn dest_node(&self) -> NodeId {
        self.dest
    }

    fn get_source_id(&self) -> (r: NodeId) {
        self.source
    }

    fn get_dest_id(&self) -> (r: NodeId) {
        self.dest
    }
}

/// The node an edge is grouped under.
pub open spec fn group_of<E: Edge>(e: E, mode: OffsetMode) -> int {
    match mode {
        OffsetMode::In => e.dest_node() as int,
        OffsetMode::Out => e.source_node() as int,
    }
}

/// The node at the other end, which the half-edge keeps.
pub open spec fn other_end<E: Edge>(e: E, mode: OffsetMode) -> int {
    match mode {
        OffsetMode::In => e.source_node() as int,
        OffsetMode::Out => e.dest_node() as int,
    }
}

pub open spec fn half_of(e: ChEdgeInfo, mode: OffsetMode) -> HalfEdge {
    HalfEdge { endpoint: other_end(e, mode) as usize, weight: e.length }
}

pub open spec fn half_of_fn(mode: OffsetMode) -> spec_fn(ChEdgeInfo) -> HalfEdge {
    |e: ChEdgeInfo| half_of(e, mode)
}

/// `a` comes no later than `b`: by group, then by the other end.
pub open spec fn edge_le<E: Edge>(a: E, b: E, mode: OffsetMode) -> bool {
    group_of(a, mode) < group_of(b, mode) || (group_of(a, mode) == group_of(b, mode)
        && other_end(a, mode) <= other_end(b, mode))
}

pub open spec fn sorted_by<E: Edge>(es: Seq<E>, mode: OffsetMode) -> bool {
    forall|i: int, j: int|
        0 <= i <= j < es.len() ==> #[trigger] edge_le(es[i], es[j], mode)
}

/// `o` is where the edges of group `j` and above begin in `es`.
pub open spec fn offset_ok<E: Edge>(es: Seq<E>, mode: OffsetMode, j: int, o: int) -> bool {
    &&& 0 <= o <= es.len()
    &&& forall|k: int| 0 <= k < o ==> group_of(#[trigger] es[k], mode) < j
    &&& forall|k: int| o <= k < es.len() ==> group_of(#[trigger] es[k], mode) >= j
}

pub open spec fn column(o: NodeOffset, mode: OffsetMode) -> int {
    match mode {
        OffsetMode::In => o.in_start as int,
        OffsetMode::Out => o.out_start as int,
    }
}

/// One step of collecting the half-edges of node `i` from a list of edges.
pub open spec fn collect_step(i: int, mode: OffsetMode) -> spec_fn(
    Multiset<HalfEdge>,
    ChEdgeInfo,
) -> Multiset<HalfEdge> {
    |m: Multiset<HalfEdge>, e: ChEdgeInfo|
        if group_of(e, mode) == i {
            m.insert(half_of(e, mode))
        } else {
            m
        }
}

/// The half-edges that the edges `es` give node `i` in the given ordering,
/// counted with multiplicity.
pub open spec fn incident_of(es: Seq<ChEdgeInfo>, mode: OffsetMode, i: int) -> Multiset<HalfEdge> {
    es.fold_left(Multiset::empty(), collect_step(i, mode))
}

/// The half-edges `(dest, length)` of the edges in `es` that leave `i`.
pub open spec fn outgoing_of(es: Seq<ChEdgeInfo>, i: int) -> Multiset<HalfEdge> {
    incident_of(es, OffsetMode::Out, i)
}

/// The half-edges `(source, length)` of the edges in `es` that enter `i`.
pub open spec fn ingoing_of(es: Seq<ChEdgeInfo>, i: int) -> Multiset<HalfEdge> {
    incident_of(es, OffsetMode::In, i)
}

proof fn lemma_collect_step_commutes(i: int, mode: OffsetMode)
    ensures
        commutative_foldl(collect_step(i, mode)),
{
    let f = collect_step(i, mode);
    assert forall|x: ChEdgeInfo, y: ChEdgeInfo, v: Multiset<HalfEdge>|
        #[trigger] f(f(v, x), y) == f(f(v, y), x) by {
        if group_of(x, mode) == i && group_of(y, mode) == i {
            assert(v.insert(half_of(x, mode)).insert(half_of(y, mode)) =~= v.insert(
                half_of(y, mode),
            ).insert(half_of(x, mode)));
        }
    }
}

/// The half-edges of a node depend on the edges as a multiset, not on their order.
pub proof fn lemma_incident_of_permutation(
    a: Seq<ChEdgeInfo>,
    b: Seq<ChEdgeInfo>,
    mode: OffsetMode,
    i: int,
)
    requires
        a.to_multiset() == b.to_multiset(),
    ensures
        incident_of(a, mode, i) == incident_of(b, mode, i),
{
    lemma_collect_step_commutes(i, mode);
    lemma_fold_left_permutation(a, b, collect_step(i, mode), Multiset::empty());
}

proof fn lemma_fold_skips_other_groups(
    s: Seq<ChEdgeInfo>,
    mode: OffsetMode,
    i: int,
    m: Multiset<HalfEdge>,
)
    requires
        forall|k: int| 0 <= k < s.len() ==> group_of(#[trigger] s[k], mode) != i,
    ensures
        s.fold_left(m, collect_step(i, mode)) == m,
    decreases s.len(),
{
    if s.len() > 0 {
        lemma_fold_skips_other_groups(s.drop_last(), mode, i, m);
        assert(group_of(s[s.len() - 1], mode) != i);
    }
}

proof fn lemma_fold_takes_group(s: Seq<ChEdgeInfo>, mode: OffsetMode, i: int)
    requires
        forall|k: int| 0 <= k < s.len() ==> group_of(#[trigger] s[k], mode) == i,
    ensures
        s.fold_left(Multiset::empty(), collect_step(i, mode)) == s.map_values(
            half_of_fn(mode),
        ).to_multiset(),
    decreases s.len(),
{
    if s.len() > 0 {
        let d = s.drop_last();
        lemma_fold_takes_group(d, mode, i);
        assert(group_of(s[s.len() - 1], mode) == i);
        assert(s.map_values(half_of_fn(mode)) =~= d.map_values(half_of_fn(mode)).push(
            half_of(s.last(), mode),
        ));
        vstd::seq_lib::to_multiset_build(d.map_values(half_of_fn(mode)), half_of(s.last(), mode));
    } else {
        assert(s.map_values(half_of_fn(mode)) =~= Seq::<HalfEdge>::empty());
        broadcast use vstd::seq_lib::group_to_multiset_ensures;
    }
}

/// In a list sorted by group, the half-edges of node `i` are exactly those of
/// the slice between the offsets of `i` and `i + 1`.
pub proof fn lemma_slice_is_group(es: Seq<ChEdgeInfo>, mode: OffsetMode, i: int, lo: int, hi: int)
    requires
        offset_ok(es, mode, i, lo),
        offset_ok(es, mode, i + 1, hi),
        lo <= hi,
    ensures
        incident_of(es, mode, i) == es.subrange(lo, hi).map_values(half_of_fn(mode)).to_multiset(),
{
    let f = collect_step(i, mode);
    let e0 = Multiset::<HalfEdge>::empty();
    es.lemma_fold_left_split(e0, f, hi);
    let head = es.subrange(0, hi);
    head.lemma_fold_left_split(e0, f, lo);
    lemma_fold_skips_other_groups(head.subrange(0, lo), mode, i, e0);
    assert(head.subrange(lo, head.len() as int) =~= es.subrange(lo, hi));
    lemma_fold_takes_group(es.subrange(lo, hi), mode, i);
    lemma_fold_skips_other_groups(
        es.subrange(hi, es.len() as int),
        mode,
        i,
        head.fold_left(e0, f),
    );
}

/// The key by which `sort_edges` orders: group first, then the other end.
pub fn sort_key<E: Edge>(e: &E, mode: OffsetMode) -> (r: (usize, usize))
    ensures
        r.0 == group_of(*e, mode),
        r.1 == other_end(*e, mode),
{
    match mode {
        OffsetMode::In => (e.get_dest_id(), e.get_source_id()),
        OffsetMode::Out => (e.get_source_id(), e.get_dest_id()),
    }
}

/// Relies on `slice::sort_by_key`: it permutes the slice into non-decreasing
/// order of the key, and a pair of integers orders lexicographically.
#[verifier::external_body]
pub(crate) fn sort_edges<E: Edge>(edges: &mut Vec<E>, mode: OffsetMode)
    ensures
        final(edges)@.to_multiset() == old(edges)@.to_multiset(),
        sorted_by(final(edges)@, mode),
{
    edges.sort_by_key(|e| sort_key(e, mode));
}

/// Fills one column of the offset table from edges sorted in that column's
/// ordering: entry `j` becomes the first index whose group is `j` or above.
pub(crate) fn calc_offset_inner<E: Edge>(
    edges: &Vec<E>,
    node_offsets: &mut Vec<NodeOffset>,
    mode: OffsetMode,
)
    requires
        old(node_offsets).len() >= 1,
        column(old(node_offsets)@[0], mode) == 0,
        sorted_by(edges@, mode),
        forall|k: int|
            0 <= k < edges.len() ==> 0 <= group_of(#[trigger] edges@[k], mode) < old(
                node_offsets,
            ).len() - 1,
    ensures
        final(node_offsets).len() == old(node_offsets).len(),
        forall|j: int|
            0 <= j < final(node_offsets).len() ==> offset_ok(
                edges@,
                mode,
                j,
                column(#[trigger] final(node_offsets)@[j], mode),
            ),
        forall|j: int|
            0 <= j < final(node_offsets).len() ==> column(
                #[trigger] final(node_offsets)@[j],
                OffsetMode::In,
            ) == column(old(node_offsets)@[j], OffsetMode::In) || mode == OffsetMode::In,
        forall|j: int|
            0 <= j < final(node_offsets).len() ==> column(
                #[trigger] final(node_offsets)@[j],
                OffsetMode::Out,
            ) == column(old(node_offsets)@[j], OffsetMode::Out) || mode == OffsetMode::Out,
{
    let ghost start = node_offsets@;
    let len = node_offsets.len();
    let mut last_id: usize = 0;
    let mut index: usize = 0;
    while index < edges.len()
        invariant
            node_offsets.len() == len,
            len == start.len(),
            len >= 1,
            sorted_by(edges@, mode),
            forall|k: int|
                0 <= k < edges.len() ==> 0 <= group_of(#[trigger] edges@[k], mode) < len - 1,
            0 <= index <= edges.len(),
            last_id < len,
            index > 0 ==> last_id == group_of(edges@[index - 1], mode),
            index == 0 ==> last_id == 0,
            column(node_offsets@[0], mode) == 0,
            forall|j: int|
                0 <= j <= last_id ==> offset_ok(
                    edges@,
                    mode,
                    j,
                    column(#[trigger] node_offsets@[j], mode),
                ),
            forall|j: int|
                0 <= j < len ==> column(#[trigger] node_offsets@[j], OffsetMode::In) == column(
                    start[j],
                    OffsetMode::In,
                ) || mode == OffsetMode::In,
            forall|j: int|
                0 <= j < len ==> column(#[trigger] node_offsets@[j], OffsetMode::Out) == column(
                    start[j],
                    OffsetMode::Out,
                ) || mode == OffsetMode::Out,
        decreases edges.len() - index,
    {
        let cur_id = match mode {
            OffsetMode::In => edges[index].get_dest_id(),
            OffsetMode::Out => edges[index].get_source_id(),
        };
        proof {
            if index > 0 {
                assert(edge_le(edges@[index - 1], edges@[index as int], mode));
            }
            assert forall|k: int| 0 <= k < index implies group_of(#[trigger] edges@[k], mode)
                <= last_id by {
                assert(edge_le(edges@[k], edges@[index - 1], mode));
            }
            assert forall|k: int| index <= k < edges.len() implies group_of(
                #[trigger] edges@[k],
                mode,
            ) >= cur_id by {
                assert(edge_le(edges@[index as int], edges@[k], mode));
            }
        }
        let mut j: usize = last_id + 1;
        while j <= cur_id
            invariant
                node_offsets.len() == len,
                len == start.len(),
                last_id < j <= cur_id + 1,
                cur_id < len - 1,
                0 <= index < edges.len(),
                column(node_offsets@[0], mode) == 0,
                forall|k: int| 0 <= k < index ==> group_of(#[trigger] edges@[k], mode) <= last_id,
                forall|k: int|
                    index <= k < edges.len() ==> group_of(#[trigger] edges@[k], mode) >= cur_id,
                forall|j2: int|
                    0 <= j2 <= last_id ==> offset_ok(
                        edges@,
                        mode,
                        j2,
                        column(#[trigger] node_offsets@[j2], mode),
                    ),
                forall|j2: int|
                    last_id < j2 < j ==> column(#[trigger] node_offsets@[j2], mode) == index,
                forall|j2: int|
                    0 <= j2 < len ==> column(#[trigger] node_offsets@[j2], OffsetMode::In)
                        == column(start[j2], OffsetMode::In) || mode == OffsetMode::In,
                forall|j2: int|
                    0 <= j2 < len ==> column(#[trigger] node_offsets@[j2], OffsetMode::Out)
                        == column(start[j2], OffsetMode::Out) || mode == OffsetMode::Out,
            decreases cur_id + 1 - j,
        {
            let old_offset = node_offsets[j];
            let new_offset = match mode {
                OffsetMode::In => NodeOffset { in_start: index, out_start: old_offset.out_start },
                OffsetMode::Out => NodeOffset { in_start: old_offset.in_start, out_start: index },
            };
            node_offsets.set(j, new_offset);
            j = j + 1;
        }
        proof {
            assert forall|j2: int| 0 <= j2 <= cur_id implies offset_ok(
                edges@,
                mode,
                j2,
                column(#[trigger] node_offsets@[j2], mode),
            ) by {
                if j2 > last_id {
                    assert(column(node_offsets@[j2], mode) == index);
                }
            }
        }
        last_id = cur_id;
        index = index + 1;
    }
    proof {
        assert forall|k: int| 0 <= k < edges.len() implies group_of(#[trigger] edges@[k], mode)
            <= last_id by {
            assert(edge_le(edges@[k], edges@[edges.len() - 1], mode));
        }
    }
    let n_edges = edges.len();
    let mut j: usize = last_id + 1;
    while j < len
        invariant
            node_offsets.len() == len,
            len == start.len(),
            last_id < j <= len,
            n_edges == edges.len(),
            column(node_offsets@[0], mode) == 0,
            forall|k: int| 0 <= k < edges.len() ==> group_of(#[trigger] edges@[k], mode) <= last_id,
            forall|j2: int|
                0 <= j2 <= last_id ==> offset_ok(
                    edges@,
                    mode,
                    j2,
                    column(#[trigger] node_offsets@[j2], mode),
                ),
            forall|j2: int|
                last_id < j2 < j ==> column(#[trigger] node_offsets@[j2], mode) == n_edges,
            forall|j2: int|
                0 <= j2 < len ==> column(#[trigger] node_offsets@[j2], OffsetMode::In) == column(
                    start[j2],
                    OffsetMode::In,
                ) || mode == OffsetMode::In,
            forall|j2: int|
                0 <= j2 < len ==> column(#[trigger] node_offsets@[j2], OffsetMode::Out) == column(
                    start[j2],
                    OffsetMode::Out,
                ) || mode == OffsetMode::Out,
        decreases len - j,
    {
        let old_offset = node_offsets[j];
        let new_offset = match mode {
            OffsetMode::In => NodeOffset { in_start: n_edges, out_start: old_offset.out_start },
            OffsetMode::Out => NodeOffset { in_start: old_offset.in_start, out_start: n_edges },
        };
        node_offsets.set(j, new_offset);
        j = j + 1;
    }
    proof {
        assert forall|j2: int| 0 <= j2 < len implies offset_ok(
            edges@,
            mode,
            j2,
            column(#[trigger] node_offsets@[j2], mode),
        ) by {
            if j2 > last_id {
                assert(column(node_offsets@[j2], mode) == n_edges);
            }
        }
    }
}

/// The half-edges of `edges`, in the same order, as seen from the group node.
fn create_half_edges(edges: &Vec<ChEdgeInfo>, mode: OffsetMode) -> (r: Vec<HalfEdge>)
    ensures
        r@ == edges@.map_values(half_of_fn(mode)),
{
    let mut result: Vec<HalfEdge> = Vec::new();
    let mut i: usize = 0;
    while i < edges.len()
        invariant
            0 <= i <= edges.len(),
            result@ == edges@.subrange(0, i as int).map_values(half_of_fn(mode)),
        decreases edges.len() - i,
    {
        let e = &edges[i];
        let half = match mode {
            OffsetMode::In => HalfEdge { endpoint: e.source, weight: e.length },
            OffsetMode::Out => HalfEdge { endpoint: e.dest, weight: e.length },
        };
        result.push(half);
        proof {
            assert(edges@.subrange(0, i + 1).map_values(half_of_fn(mode))
                =~= edges@.subrange(0, i as int).map_values(half_of_fn(mode)).push(half));
        }
        i = i + 1;
    }
    proof {
        assert(edges@.subrange(0, i as int) =~= edges@);
    }
    result
}

pub proof fn lemma_offset_monotone<E: Edge>(es: Seq<E>, mode: OffsetMode, j1: int, o1: int, j2: int, o2: int)
    requires
        offset_ok(es, mode, j1, o1),
        offset_ok(es, mode, j2, o2),
        j1 <= j2,
    ensures
        o1 <= o2,
{
    if o1 > o2 {
        assert(group_of(es[o2], mode) < j1);
    }
}

/// Every edge of `es` has both ends below `n`.
pub open spec fn ends_below(es: Seq<ChEdgeInfo>, n: int) -> bool {
    forall|k: int| 0 <= k < es.len() ==> (#[trigger] es[k]).source < n && es[k].dest < n
}

proof fn lemma_ends_below_permutation(a: Seq<ChEdgeInfo>, b: Seq<ChEdgeInfo>, n: int)
    requires
        a.to_multiset() == b.to_multiset(),
        ends_below(a, n),
    ensures
        ends_below(b, n),
{
    broadcast use vstd::seq_lib::group_to_multiset_ensures;

    assert forall|k: int| 0 <= k < b.len() implies (#[trigger] b[k]).source < n && b[k].dest < n by {
        assert(b.contains(b[k]));
        assert(a.to_multiset().count(b[k]) > 0);
        assert(a.contains(b[k]));
    }
}

/// The compact form of `edges` over `n` nodes: one offset column and one
/// half-edge array per ordering.
#[verifier::opaque]
pub open spec fn compact_of(
    n: int,
    edges: Seq<ChEdgeInfo>,
    offsets: Seq<NodeOffset>,
    in_edges: Seq<HalfEdge>,
    out_edges: Seq<HalfEdge>,
) -> bool {
    &&& offsets.len() == n + 1
    &&& in_edges.len() == edges.len()
    &&& out_edges.len() == edges.len()
    &&& forall|i: int, j: int|
        0 <= i <= j <= n ==> (#[trigger] offsets[i]).in_start <= (#[trigger] offsets[j]).in_start
            && offsets[i].out_start <= offsets[j].out_start
    &&& offsets[0] == NodeOffset { in_start: 0, out_start: 0 }
    &&& offsets[n].in_start == edges.len()
    &&& offsets[n].out_start == edges.len()
    &&& forall|i: int|
        0 <= i < n ==> #[trigger] out_edges.subrange(
            offsets[i].out_start as int,
            offsets[i + 1].out_start as int,
        ).to_multiset() == outgoing_of(edges, i)
    &&& forall|i: int|
        0 <= i < n ==> #[trigger] in_edges.subrange(
            offsets[i].in_start as int,
            offsets[i + 1].in_start as int,
        ).to_multiset() == ingoing_of(edges, i)
    &&& forall|i: int, a: int, b: int|
        #![trigger offsets[i], out_edges[a], out_edges[b]]
        0 <= i < n && offsets[i].out_start <= a <= b < offsets[i + 1].out_start ==> out_edges[a].endpoint
            <= out_edges[b].endpoint
    &&& forall|i: int, a: int, b: int|
        #![trigger offsets[i], in_edges[a], in_edges[b]]
        0 <= i < n && offsets[i].in_start <= a <= b < offsets[i + 1].in_start ==> in_edges[a].endpoint
            <= in_edges[b].endpoint
    &&& forall|k: int| 0 <= k < out_edges.len() ==> (#[trigger] out_edges[k]).endpoint < n
    &&& forall|k: int| 0 <= k < in_edges.len() ==> (#[trigger] in_edges[k]).endpoint < n
}

/// What one pass of `calc_node_offsets` establishes for one ordering.
proof fn lemma_pass_facts(
    n: int,
    orig: Seq<ChEdgeInfo>,
    sorted: Seq<ChEdgeInfo>,
    mode: OffsetMode,
    offsets: Seq<NodeOffset>,
    halves: Seq<HalfEdge>,
)
    requires
        sorted.to_multiset() == orig.to_multiset(),
        sorted_by(sorted, mode),
        ends_below(orig, n),
        0 <= n,
        offsets.len() == n + 1,
        forall|j: int|
            0 <= j < offsets.len() ==> offset_ok(sorted, mode, j, column(#[trigger] offsets[j], mode)),
        halves == sorted.map_values(half_of_fn(mode)),
    ensures
        forall|i: int, j: int|
            0 <= i <= j <= n ==> column(#[trigger] offsets[i], mode) <= column(
                #[trigger] offsets[j],
                mode,
            ),
        column(offsets[0], mode) == 0,
        column(offsets[n], mode) == orig.len(),
        halves.len() == orig.len(),
        forall|i: int|
            0 <= i < n ==> #[trigger] halves.subrange(
                column(offsets[i], mode),
                column(offsets[i + 1], mode),
            ).to_multiset() == incident_of(orig, mode, i),
        forall|i: int, a: int, b: int|
            #![trigger offsets[i], halves[a], halves[b]]
            0 <= i < n && column(offsets[i], mode) <= a <= b < column(offsets[i + 1], mode)
                ==> halves[a].endpoint <= halves[b].endpoint,
        forall|k: int| 0 <= k < halves.len() ==> (#[trigger] halves[k]).endpoint < n,
{
    broadcast use vstd::seq_lib::group_to_multiset_ensures;

    lemma_ends_below_permutation(orig, sorted, n);
    assert forall|i: int, j: int| 0 <= i <= j <= n implies column(#[trigger] offsets[i], mode)
        <= column(#[trigger] offsets[j], mode) by {
        lemma_offset_monotone(sorted, mode, i, column(offsets[i], mode), j, column(offsets[j], mode));
    }
    assert(offset_ok(sorted, mode, 0, column(offsets[0], mode)));
    if column(offsets[0], mode) > 0 {
        assert(group_of(sorted[0], mode) < 0);
    }
    assert(offset_ok(sorted, mode, n, column(offsets[n], mode)));
    if column(offsets[n], mode) < sorted.len() {
        let c = column(offsets[n], mode);
        assert(group_of(sorted[c], mode) >= n);
        assert(sorted[c].source < n && sorted[c].dest < n);
    }
    vstd::seq_lib::to_multiset_len(sorted);
    vstd::seq_lib::to_multiset_len(orig);
    assert(sorted.len() == orig.len());
    assert forall|i: int| 0 <= i < n implies #[trigger] halves.subrange(
        column(offsets[i], mode),
        column(offsets[i + 1], mode),
    ).to_multiset() == incident_of(orig, mode, i) by {
        let lo = column(offsets[i], mode);
        let hi = column(offsets[i + 1], mode);
        assert(offset_ok(sorted, mode, i, lo));
        assert(offset_ok(sorted, mode, i + 1, hi));
        lemma_offset_monotone(sorted, mode, i, lo, i + 1, hi);
        lemma_slice_is_group(sorted, mode, i, lo, hi);
        lemma_incident_of_permutation(sorted, orig, mode, i);
        assert(halves.subrange(lo, hi) =~= sorted.subrange(lo, hi).map_values(half_of_fn(mode)));
    }
    assert forall|i: int, a: int, b: int|
        #![trigger offsets[i], halves[a], halves[b]]
        0 <= i < n && column(offsets[i], mode) <= a <= b < column(offsets[i + 1], mode) implies halves[a].endpoint
            <= halves[b].endpoint by {
        let lo = column(offsets[i], mode);
        let hi = column(offsets[i + 1], mode);
        assert(offset_ok(sorted, mode, i, lo));
        assert(offset_ok(sorted, mode, i + 1, hi));
        assert(edge_le(sorted[a], sorted[b], mode));
        assert(group_of(sorted[a], mode) == i);
        assert(group_of(sorted[b], mode) == i);
    }
    assert forall|k: int| 0 <= k < halves.len() implies (#[trigger] halves[k]).endpoint < n by {
        assert(sorted[k].source < n && sorted[k].dest < n);
    }
}

/// Builds the offset table and the two half-edge arrays (in, out) of `edges`
/// over `node_count` nodes.
fn calc_node_offsets(node_count: usize, edges: Vec<ChEdgeInfo>) -> (r: (
    Vec<NodeOffset>,
    Vec<HalfEdge>,
    Vec<HalfEdge>,
))
    requires
        node_count < usize::MAX,
        ends_below(edges@, node_count as int),
    ensures
        compact_of(node_count as int, edges@, r.0@, r.1@, r.2@),
{
    reveal(compact_of);
    let ghost orig = edges@;
    let mut edges = edges;
    let mut node_offsets = vec![NodeOffset::new(0, 0); node_count + 1];
    proof {
        assert forall|j: int| 0 <= j < node_offsets.len() implies #[trigger] node_offsets@[j]
            == (NodeOffset { in_start: 0, out_start: 0 }) by {
            assert(cloned(NodeOffset { in_start: 0, out_start: 0 }, node_offsets@[j]));
        }
    }

    sort_edges(&mut edges, OffsetMode::In);
    let ghost by_dest = edges@;
    proof {
        lemma_ends_below_permutation(orig, by_dest, node_count as int);
    }
    calc_offset_inner(&edges, &mut node_offsets, OffsetMode::In);
    let in_edges = create_half_edges(&edges, OffsetMode::In);
    let ghost in_offsets = node_offsets@;

    sort_edges(&mut edges, OffsetMode::Out);
    let ghost by_source = edges@;
    proof {
        lemma_ends_below_permutation(orig, by_source, node_count as int);
        assert(column(node_offsets@[0], OffsetMode::Out) == 0);
    }
    calc_offset_inner(&edges, &mut node_offsets, OffsetMode::Out);
    let out_edges = create_half_edges(&edges, OffsetMode::Out);

    proof {
        let n = node_count as int;
        let offs = node_offsets@;
        assert forall|j: int| 0 <= j < offs.len() implies offset_ok(
            by_dest,
            OffsetMode::In,
            j,
            column(#[trigger] offs[j], OffsetMode::In),
        ) by {
            assert(column(offs[j], OffsetMode::In) == column(in_offsets[j], OffsetMode::In));
        }
        lemma_pass_facts(n, orig, by_dest, OffsetMode::In, offs, in_edges@);
        lemma_pass_facts(n, orig, by_source, OffsetMode::Out, offs, out_edges@);
        assert(offs[0] == NodeOffset { in_start: 0, out_start: 0 });
        assert forall|i: int, j: int| 0 <= i <= j <= n implies (#[trigger] offs[i]).in_start
            <= (#[trigger] offs[j]).in_start && offs[i].out_start <= offs[j].out_start by {
            assert(column(offs[i], OffsetMode::In) <= column(offs[j], OffsetMode::In));
            assert(column(offs[i], OffsetMode::Out) <= column(offs[j], OffsetMode::Out));
        }
        assert forall|i: int| 0 <= i < n implies #[trigger] out_edges@.subrange(
            offs[i].out_start as int,
            offs[i + 1].out_start as int,
        ).to_multiset() == outgoing_of(orig, i) by {
            assert(out_edges@.subrange(
                column(offs[i], OffsetMode::Out),
                column(offs[i + 1], OffsetMode::Out),
            ).to_multiset() == incident_of(orig, OffsetMode::Out, i));
        }
        assert forall|i: int| 0 <= i < n implies #[trigger] in_edges@.subrange(
            offs[i].in_start as int,
            offs[i + 1].in_start as int,
        ).to_multiset() == ingoing_of(orig, i) by {
            assert(in_edges@.subrange(
                column(offs[i], OffsetMode::In),
                column(offs[i + 1], OffsetMode::In),
            ).to_multiset() == incident_of(orig, OffsetMode::In, i));
        }
        assert forall|i: int, a: int, b: int|
            #![trigger offs[i], out_edges@[a], out_edges@[b]]
            0 <= i < n && offs[i].out_start <= a <= b < offs[i + 1].out_start implies out_edges@[a].endpoint
                <= out_edges@[b].endpoint by {
            assert(column(offs[i], OffsetMode::Out) <= a);
            assert(b < column(offs[i + 1], OffsetMode::Out));
        }
        assert forall|i: int, a: int, b: int|
            #![trigger offs[i], in_edges@[a], in_edges@[b]]
            0 <= i < n && offs[i].in_start <= a <= b < offs[i + 1].in_start implies in_edges@[a].endpoint
                <= in_edges@[b].endpoint by {
            assert(column(offs[i], OffsetMode::In) <= a);
            assert(b < column(offs[i + 1], OffsetMode::In));
        }
        assert(offs.len() == n + 1);
        assert(in_edges@.len() == orig.len());
        assert(out_edges@.len() == orig.len());
        assert(offs[n].in_start == orig.len());
        assert(offs[n].out_start == orig.len());
    }
    (node_offsets, in_edges, out_edges)
}

/// A graph with a level per node, in compact adjacency form. It does not
/// change once built.
pub struct ChGraph {
    node_info: Vec<ChNodeInfo>,
    node_offsets: Vec<NodeOffset>,
    out_edges: Vec<HalfEdge>,
    in_edges: Vec<HalfEdge>,
    level: Vec<Level>,
}

/// What a `ChGraph` holds, as mathematical sequences.
pub struct ChGraphView {
    pub offsets: Seq<NodeOffset>,
    pub out_edges: Seq<HalfEdge>,
    pub in_edges: Seq<HalfEdge>,
    pub level: Seq<Level>,
    pub node_info: Seq<ChNodeInfo>,
}

impl ChGraphView {
    pub open spec fn node_count(self) -> int {
        self.level.len() as int
    }

    pub open spec fn out_start(self, i: int) -> int {
        self.offsets[i].out_start as int
    }

    pub open spec fn in_start(self, i: int) -> int {
        self.offsets[i].in_start as int
    }

    /// The half-edges `(dest, weight)` of the edges that leave `i`.
    pub open spec fn out_slice(self, i: int) -> Seq<HalfEdge> {
        self.out_edges.subrange(self.out_start(i), self.out_start(i + 1))
    }

    /// The half-edges `(source, weight)` of the edges that enter `i`.
    pub open spec fn in_slice(self, i: int) -> Seq<HalfEdge> {
        self.in_edges.subrange(self.in_start(i), self.in_start(i + 1))
    }

    /// The graph over the node levels `levels` built from `edges`.
    pub open spec fn built_from(self, levels: Seq<Level>, edges: Seq<ChEdgeInfo>) -> bool {
        &&& self.level == levels
        &&& compact_of(levels.len() as int, edges, self.offsets, self.in_edges, self.out_edges)
    }

    /// The offsets cut both half-edge arrays into one slice per node, in
    /// node order, and every endpoint is a node.
    pub open spec fn wf(self) -> bool {
        let n = self.node_count();
        &&& self.offsets.len() == n + 1
        &&& self.in_edges.len() == self.out_edges.len()
        &&& self.offsets[0] == NodeOffset { in_start: 0, out_start: 0 }
        &&& forall|i: int, j: int|
            0 <= i <= j <= n ==> (#[trigger] self.offsets[i]).in_start
                <= (#[trigger] self.offsets[j]).in_start && self.offsets[i].out_start
                <= self.offsets[j].out_start
        &&& self.offsets[n].in_start == self.in_edges.len()
        &&& self.offsets[n].out_start == self.out_edges.len()
        &&& forall|k: int|
            0 <= k < self.out_edges.len() ==> (#[trigger] self.out_edges[k]).endpoint < n
        &&& forall|k: int| 0 <= k < self.in_edges.len() ==> (#[trigger] self.in_edges[k]).endpoint < n
    }
}

/// A graph built from some list of edges is well formed.
pub proof fn lemma_built_graph_wf(g: ChGraphView, levels: Seq<Level>, edges: Seq<ChEdgeInfo>)
    requires
        g.built_from(levels, edges),
    ensures
        g.wf(),
{
    reveal(compact_of);
}

impl View for ChGraph {
    type V = ChGraphView;

    closed spec fn view(&self) -> ChGraphView {
        ChGraphView {
            offsets: self.node_offsets@,
            out_edges: self.out_edges@,
            in_edges: self.in_edges@,
            level: self.level@,
            node_info: self.node_info@,
        }
    }
}

/// The levels of `nodes`, in order.
pub open spec fn levels_of(nodes: Seq<ChNodeInfo>) -> Seq<Level> {
    nodes.map_values(|n: ChNodeInfo| n.level)
}

impl ChGraph {
    /// Builds the graph: node `i` is `node_info[i]`; every edge must join two
    /// of these nodes. Parallel edges are kept.
    pub fn new(node_info: Vec<ChNodeInfo>, edges: Vec<ChEdgeInfo>) -> (g: ChGraph)
        requires
            node_info.len() < usize::MAX,
            ends_below(edges@, node_info.len() as int),
        ensures
            g@.built_from(levels_of(node_info@), edges@),
            g@.node_info == node_info@,
            g@.wf(),
    {
        let mut level: Vec<Level> = Vec::new();
        let mut i: usize = 0;
        while i < node_info.len()
            invariant
                0 <= i <= node_info.len(),
                level@ == levels_of(node_info@.subrange(0, i as int)),
            decreases node_info.len() - i,
        {
            level.push(node_info[i].level);
            proof {
                assert(levels_of(node_info@.subrange(0, i + 1)) =~= levels_of(
                    node_info@.subrange(0, i as int),
                ).push(node_info@[i as int].level));
            }
            i = i + 1;
        }
        proof {
            assert(node_info@.subrange(0, i as int) =~= node_info@);
        }
        let ghost es = edges@;
        let ghost node_info_levels = node_info@;
        let node_count = node_info.len();
        let (node_offsets, in_edges, out_edges) = calc_node_offsets(node_count, edges);
        let g = ChGraph { node_info, node_offsets, out_edges, in_edges, level };
        proof {
            lemma_built_graph_wf(g@, levels_of(node_info_levels), es);
        }
        g
    }

    /// The half-edges leaving `id`, ordered by endpoint.
    pub fn outgoing_edges_for(&self, id: NodeId) -> (r: &[HalfEdge])
        requires
            self@.wf(),
            id < self@.node_count(),
        ensures
            r@ == self@.out_slice(id as int),
    {
        proof {
            self.lemma_offsets_in_bounds(id as int);
        }
        let lo = self.node_offsets[id].out_start;
        let hi = self.node_offsets[id + 1].out_start;
        vstd::slice::slice_subrange(self.out_edges.as_slice(), lo, hi)
    }

    /// The half-edges entering `id`, ordered by endpoint.
    pub fn ingoing_edges_for(&self, id: NodeId) -> (r: &[HalfEdge])
        requires
            self@.wf(),
            id < self@.node_count(),
        ensures
            r@ == self@.in_slice(id as int),
    {
        proof {
            self.lemma_offsets_in_bounds(id as int);
        }
        let lo = self.node_offsets[id].in_start;
        let hi = self.node_offsets[id + 1].in_start;
        vstd::slice::slice_subrange(self.in_edges.as_slice(), lo, hi)
    }

    proof fn lemma_offsets_in_bounds(&self, i: int)
        requires
            self@.wf(),
            0 <= i < self@.node_count(),
        ensures
            self.node_offsets.len() == self.level.len() + 1,
            self.out_edges.len() == self.in_edges.len(),
            0 <= self@.out_start(i) <= self@.out_start(i + 1) <= self.out_edges.len(),
            0 <= self@.in_start(i) <= self@.in_start(i + 1) <= self.in_edges.len(),
    {
        let n = self@.node_count();
        let o = self@.offsets;
        assert(o[0].in_start <= o[i].in_start);
        assert(o[i].in_start <= o[i + 1].in_start);
        assert(o[i + 1].in_start <= o[n].in_start);
    }

    /// The number of nodes.
    pub fn node_count(&self) -> (r: usize)
        requires
            self@.wf(),
        ensures
            r == self@.node_count(),
    {
        self.node_offsets.len() - 1
    }

    /// The level of node `id`.
    pub fn level(&self, id: NodeId) -> (r: Level)
        requires
            id < self@.node_count(),
        ensures
            r == self@.level[id as int],
    {
        self.level[id]
    }

    /// The nodes as given to `new`.
    pub fn node_info(&self) -> (r: &[ChNodeInfo])
        ensures
            r@ == self@.node_info,
    {
        self.node_info.as_slice()
    }

    /// The offset table: entry `i` holds where the slices of node `i` start,
    /// and the last entry the number of edges.
    pub fn node_offsets(&self) -> (r: &[NodeOffset])
        ensures
            r@ == self@.offsets,
    {
        self.node_offsets.as_slice()
    }
}

/// The number of half-edges in the out-slices of the nodes below `k`.
pub open spec fn out_degree_total(g: ChGraphView, k: int) -> int
    decreases k,
{
    if k <= 0 {
        0
    } else {
        out_degree_total(g, k - 1) + g.out_slice(k - 1).len()
    }
}

/// The number of half-edges in the in-slices of the nodes below `k`.
pub open spec fn in_degree_total(g: ChGraphView, k: int) -> int
    decreases k,
{
    if k <= 0 {
        0
    } else {
        in_degree_total(g, k - 1) + g.in_slice(k - 1).len()
    }
}

proof fn lemma_degree_totals(g: ChGraphView, k: int)
    requires
        g.wf(),
        0 <= k <= g.node_count(),
    ensures
        out_degree_total(g, k) == g.out_start(k),
        in_degree_total(g, k) == g.in_start(k),
    decreases k,
{
    if k > 0 {
        lemma_degree_totals(g, k - 1);
        assert(g.offsets[k - 1].out_start <= g.offsets[k].out_start);
        assert(g.offsets[k].out_start <= g.offsets[g.node_count()].out_start);
        assert(g.offsets[k - 1].in_start <= g.offsets[k].in_start);
        assert(g.offsets[k].in_start <= g.offsets[g.node_count()].in_start);
    }
}

/// For a graph built from any list of edges, the out-slice of each node holds
/// exactly the half-edges `(dest, length)` of the edges that leave it, ordered
/// by destination, and the in-slice exactly the half-edges `(source, length)`
/// of the edges that enter it, ordered by source. Together the slices hold
/// each edge once in either direction.
pub proof fn lemma_adjacency_exact(g: ChGraphView, levels: Seq<Level>, edges: Seq<ChEdgeInfo>)
    requires
        g.built_from(levels, edges),
    ensures
        forall|i: int|
            0 <= i < g.node_count() ==> (#[trigger] g.out_slice(i)).to_multiset() == outgoing_of(
                edges,
                i,
            ),
        forall|i: int|
            0 <= i < g.node_count() ==> (#[trigger] g.in_slice(i)).to_multiset() == ingoing_of(
                edges,
                i,
            ),
        forall|i: int, a: int, b: int|
            0 <= i < g.node_count() && 0 <= a <= b < g.out_slice(i).len() ==> (
            #[trigger] g.out_slice(i)[a]).endpoint <= (#[trigger] g.out_slice(i)[b]).endpoint,
        forall|i: int, a: int, b: int|
            0 <= i < g.node_count() && 0 <= a <= b < g.in_slice(i).len() ==> (
            #[trigger] g.in_slice(i)[a]).endpoint <= (#[trigger] g.in_slice(i)[b]).endpoint,
        out_degree_total(g, g.node_count()) == edges.len(),
        in_degree_total(g, g.node_count()) == edges.len(),
{
    reveal(compact_of);
    let n = g.node_count();
    lemma_built_graph_wf(g, levels, edges);
    lemma_degree_totals(g, n);
    assert forall|i: int| 0 <= i < n implies (#[trigger] g.out_slice(i)).to_multiset()
        == outgoing_of(edges, i) by {
        assert(g.out_edges.subrange(g.offsets[i].out_start as int, g.offsets[i + 1].out_start as int).to_multiset()
            == outgoing_of(edges, i));
    }
    assert forall|i: int| 0 <= i < n implies (#[trigger] g.in_slice(i)).to_multiset()
        == ingoing_of(edges, i) by {
        assert(g.in_edges.subrange(g.offsets[i].in_start as int, g.offsets[i + 1].in_start as int).to_multiset()
            == ingoing_of(edges, i));
    }
    assert forall|i: int, a: int, b: int|
        0 <= i < n && 0 <= a <= b < g.out_slice(i).len() implies (
        #[trigger] g.out_slice(i)[a]).endpoint <= (#[trigger] g.out_slice(i)[b]).endpoint by {
        let lo = g.out_start(i);
        assert(g.offsets[i].out_start <= g.offsets[i + 1].out_start);
        assert(g.offsets[i + 1].out_start <= g.offsets[n].out_start);
        assert(g.out_slice(i)[a] == g.out_edges[lo + a]);
        assert(g.out_slice(i)[b] == g.out_edges[lo + b]);
        assert(g.out_edges[lo + a].endpoint <= g.out_edges[lo + b].endpoint);
    }
    assert forall|i: int, a: int, b: int|
        0 <= i < n && 0 <= a <= b < g.in_slice(i).len() implies (
        #[trigger] g.in_slice(i)[a]).endpoint <= (#[trigger] g.in_slice(i)[b]).endpoint by {
        let lo = g.in_start(i);
        assert(g.offsets[i].in_start <= g.offsets[i + 1].in_start);
        assert(g.offsets[i + 1].in_start <= g.offsets[n].in_start);
        assert(g.in_slice(i)[a] == g.in_edges[lo + a]);
        assert(g.in_slice(i)[b] == g.in_edges[lo + b]);
        assert(g.in_edges[lo + a].endpoint <= g.in_edges[lo + b].endpoint);
    }
}

/// For any node count and list of edges, both offset columns are
/// non-decreasing and end at the number of edges; with no edges every offset
/// is zero.
pub proof fn lemma_offsets_monotone(g: ChGraphView, levels: Seq<Level>, edges: Seq<ChEdgeInfo>)
    requires
        g.built_from(levels, edges),
    ensures
        g.offsets.len() == levels.len() + 1,
        forall|i: int, j: int|
            0 <= i <= j < g.offsets.len() ==> (#[trigger] g.offsets[i]).in_start
                <= (#[trigger] g.offsets[j]).in_start && g.offsets[i].out_start
                <= g.offsets[j].out_start,
        g.offsets[levels.len() as int].in_start == edges.len(),
        g.offsets[levels.len() as int].out_start == edges.len(),
        edges.len() == 0 ==> forall|i: int|
            0 <= i < g.offsets.len() ==> #[trigger] g.offsets[i] == (NodeOffset {
                in_start: 0,
                out_start: 0,
            }),
{
    reveal(compact_of);
    let n = levels.len() as int;
    if edges.len() == 0 {
        assert forall|i: int| 0 <= i < g.offsets.len() implies #[trigger] g.offsets[i] == (
        NodeOffset { in_start: 0, out_start: 0 }) by {
            assert(g.offsets[i].in_start <= g.offsets[n].in_start);
        }
    }
}

/// A half-edge is among those that `es` gives node `i` exactly when some
/// edge of `es` gives it.
pub proof fn lemma_incident_member(es: Seq<ChEdgeInfo>, mode: OffsetMode, i: int, h: HalfEdge)
    ensures
        incident_of(es, mode, i).count(h) > 0 <==> exists|k: int|
            0 <= k < es.len() && group_of(#[trigger] es[k], mode) == i && half_of(es[k], mode) == h,
    decreases es.len(),
{
    if es.len() > 0 {
        let d = es.drop_last();
        lemma_incident_member(d, mode, i, h);
        assert(incident_of(es, mode, i) == collect_step(i, mode)(incident_of(d, mode, i), es.last()));
        if exists|k: int| 0 <= k < es.len() && group_of(#[trigger] es[k], mode) == i && half_of(es[k], mode) == h {
            let k = choose|k: int| 0 <= k < es.len() && group_of(#[trigger] es[k], mode) == i && half_of(es[k], mode) == h;
            if k < es.len() - 1 {
                assert(d[k] == es[k]);
            }
        }
        if exists|k: int| 0 <= k < d.len() && group_of(#[trigger] d[k], mode) == i && half_of(d[k], mode) == h {
            let k = choose|k: int| 0 <= k < d.len() && group_of(#[trigger] d[k], mode) == i && half_of(d[k], mode) == h;
            assert(es[k] == d[k]);
        }
    } else {
        assert(incident_of(es, mode, i) == Multiset::<HalfEdge>::empty());
    }
}

/// In a built graph, an in-slice entry `(x, w)` of `y` stands for an edge
/// `x -> y` of weight `w`, which the out-slice of `x` holds as `(y, w)`.
pub proof fn lemma_in_edge_is_out_edge(
    g: ChGraphView,
    levels: Seq<Level>,
    edges: Seq<ChEdgeInfo>,
    y: int,
    k: int,
)
    requires
        g.built_from(levels, edges),
        0 <= y < g.node_count(),
        0 <= k < g.in_slice(y).len(),
    ensures
        0 <= g.in_slice(y)[k].endpoint < g.node_count(),
        y as usize as int == y,
        g.out_slice(g.in_slice(y)[k].endpoint as int).contains(
            HalfEdge { endpoint: y as usize, weight: g.in_slice(y)[k].weight },
        ),
{
    broadcast use vstd::seq_lib::group_to_multiset_ensures;

    lemma_adjacency_exact(g, levels, edges);
    lemma_built_graph_wf(g, levels, edges);
    reveal(compact_of);
    let h = g.in_slice(y)[k];
    let x = h.endpoint as int;
    assert(g.in_slice(y).contains(h));
    assert(ingoing_of(edges, y).count(h) > 0);
    lemma_incident_member(edges, OffsetMode::In, y, h);
    let j = choose|j: int|
        0 <= j < edges.len() && group_of(#[trigger] edges[j], OffsetMode::In) == y && half_of(
            edges[j],
            OffsetMode::In,
        ) == h;
    let e = edges[j];
    let h2 = HalfEdge { endpoint: y as usize, weight: h.weight };
    assert(g.in_edges.subrange(g.offsets[y].in_start as int, g.offsets[y + 1].in_start as int)
        == g.in_slice(y));
    assert(g.offsets[y].in_start <= g.offsets[y + 1].in_start);
    assert(g.offsets[y + 1].in_start <= g.offsets[g.node_count()].in_start);
    assert(g.in_slice(y)[k] == g.in_edges[g.in_start(y) + k]);
    assert(x < g.node_count());
    assert(half_of(e, OffsetMode::Out) == h2);
    lemma_incident_member(edges, OffsetMode::Out, x, h2);
    assert(outgoing_of(edges, x).count(h2) > 0);
    assert(g.out_slice(x).to_multiset().count(h2) > 0);
}

/// Every edge of `edges` joins two of the `node_count` nodes.
pub fn edges_within<E: Edge>(edges: &Vec<E>, node_count: usize) -> (r: bool)
    ensures
        r == forall|k: int|
            0 <= k < edges.len() ==> (#[trigger] edges@[k]).source_node() < node_count
                && edges@[k].dest_node() < node_count,
{
    let mut i: usize = 0;
    while i < edges.len()
        invariant
            0 <= i <= edges.len(),
            forall|k: int|
                0 <= k < i ==> (#[trigger] edges@[k]).source_node() < node_count
                    && edges@[k].dest_node() < node_count,
        decreases edges.len() - i,
    {
        if edges[i].get_source_id() >= node_count || edges[i].get_dest_id() >= node_count {
            return false;
        }
        i = i + 1;
    }
    true
}

/// The edge `e` with its direction turned around.
pub open spec fn reversed(e: ChEdgeInfo) -> ChEdgeInfo {
    ChEdgeInfo { source: e.dest, dest: e.source, ..e }
}

pub open spec fn reversed_fn() -> spec_fn(ChEdgeInfo) -> ChEdgeInfo {
    |e: ChEdgeInfo| reversed(e)
}

proof fn lemma_incident_reversed(es: Seq<ChEdgeInfo>, i: int)
    ensures
        incident_of(es, OffsetMode::Out, i) == incident_of(es.map_values(reversed_fn()), OffsetMode::In, i),
    decreases es.len(),
{
    if es.len() > 0 {
        let d = es.drop_last();
        lemma_incident_reversed(d, i);
        assert(es.map_values(reversed_fn()).drop_last() =~= d.map_values(reversed_fn()));
        assert(es.map_values(reversed_fn()).last() == reversed(es.last()));
    } else {
        assert(es.map_values(reversed_fn()).len() == 0);
    }
}

/// The two ends and the weight of an edge.
pub open spec fn ends_and_length(e: ChEdgeInfo) -> (usize, usize, usize) {
    (e.source, e.dest, e.length)
}

/// The two ends, turned around, and the weight of an edge.
pub open spec fn reversed_ends_and_length(e: ChEdgeInfo) -> (usize, usize, usize) {
    (e.dest, e.source, e.length)
}

/// The edge with the given ends and weight and no other data.
pub open spec fn bare_edge(t: (usize, usize, usize)) -> ChEdgeInfo {
    ChEdgeInfo { source: t.0, dest: t.1, length: t.2, speed: 0, edge_a: None, edge_b: None }
}

spec fn bare_of(e: ChEdgeInfo) -> ChEdgeInfo {
    bare_edge(ends_and_length(e))
}

proof fn lemma_incident_bare(es: Seq<ChEdgeInfo>, mode: OffsetMode, i: int)
    ensures
        incident_of(es, mode, i) == incident_of(es.map_values(|e: ChEdgeInfo| bare_of(e)), mode, i),
    decreases es.len(),
{
    let c = es.map_values(|e: ChEdgeInfo| bare_of(e));
    if es.len() > 0 {
        lemma_incident_bare(es.drop_last(), mode, i);
        assert(c.drop_last() =~= es.drop_last().map_values(|e: ChEdgeInfo| bare_of(e)));
        assert(c.last() == bare_of(es.last()));
    } else {
        assert(c.len() == 0);
    }
}

spec fn insert_image<A, B>(f: spec_fn(A) -> B) -> spec_fn(Multiset<B>, A) -> Multiset<B> {
    |m: Multiset<B>, x: A| m.insert(f(x))
}

proof fn lemma_image_fold<A, B>(s: Seq<A>, f: spec_fn(A) -> B)
    ensures
        s.map_values(f).to_multiset() == s.fold_left(Multiset::empty(), insert_image(f)),
    decreases s.len(),
{
    broadcast use vstd::seq_lib::group_to_multiset_ensures;

    if s.len() > 0 {
        lemma_image_fold(s.drop_last(), f);
        assert(s.map_values(f) =~= s.drop_last().map_values(f).push(f(s.last())));
    } else {
        assert(s.map_values(f).len() == 0);
        assert(s.map_values(f).to_multiset() =~= Multiset::<B>::empty());
    }
}

/// Images of two sequences that hold the same entries hold the same entries.
proof fn lemma_image_permutation<A, B>(a: Seq<A>, b: Seq<A>, f: spec_fn(A) -> B)
    requires
        a.to_multiset() == b.to_multiset(),
    ensures
        a.map_values(f).to_multiset() == b.map_values(f).to_multiset(),
{
    let g = insert_image(f);
    assert forall|x: A, y: A, v: Multiset<B>| #[trigger] g(g(v, x), y) == g(g(v, y), x) by {
        assert(v.insert(f(x)).insert(f(y)) =~= v.insert(f(y)).insert(f(x)));
    }
    lemma_fold_left_permutation(a, b, g, Multiset::empty());
    lemma_image_fold(a, f);
    lemma_image_fold(b, f);
}

/// When every edge `(u, v, w)` occurs as often as `(v, u, w)`, comparing
/// only ends and weights, every node's out-slice and in-slice hold the same
/// half-edges.
pub proof fn lemma_mirrored_slices(g: ChGraphView, levels: Seq<Level>, edges: Seq<ChEdgeInfo>)
    requires
        g.built_from(levels, edges),
        edges.map_values(|e: ChEdgeInfo| reversed_ends_and_length(e)).to_multiset() == edges.map_values(
            |e: ChEdgeInfo| ends_and_length(e),
        ).to_multiset(),
    ensures
        forall|u: int|
            0 <= u < g.node_count() ==> (#[trigger] g.out_slice(u)).to_multiset() == g.in_slice(
                u,
            ).to_multiset(),
{
    let c = edges.map_values(|e: ChEdgeInfo| bare_of(e));
    let rt = edges.map_values(|e: ChEdgeInfo| reversed_ends_and_length(e));
    let tt = edges.map_values(|e: ChEdgeInfo| ends_and_length(e));
    lemma_image_permutation(rt, tt, |t: (usize, usize, usize)| bare_edge(t));
    assert(c.map_values(reversed_fn()) =~= rt.map_values(|t: (usize, usize, usize)| bare_edge(t)));
    assert(c =~= tt.map_values(|t: (usize, usize, usize)| bare_edge(t)));
    lemma_adjacency_exact(g, levels, edges);
    assert forall|u: int| 0 <= u < g.node_count() implies (#[trigger] g.out_slice(u)).to_multiset()
        == g.in_slice(u).to_multiset() by {
        lemma_incident_bare(edges, OffsetMode::Out, u);
        lemma_incident_bare(edges, OffsetMode::In, u);
        lemma_incident_reversed(c, u);
        lemma_incident_of_permutation(c.map_values(reversed_fn()), c, OffsetMode::In, u);
    }
}

/// The last position in `nodes` whose node has id `id`, or -1.
pub open spec fn last_position(nodes: Seq<ChNodeInfo>, id: usize) -> int
    decreases nodes.len(),
{
    if nodes.len() == 0 {
        -1
    } else if nodes.last().id == id {
        nodes.len() - 1
    } else {
        last_position(nodes.drop_last(), id)
    }
}

proof fn lemma_last_position_bounds(nodes: Seq<ChNodeInfo>, id: usize)
    ensures
        -1 <= last_position(nodes, id) < nodes.len(),
        last_position(nodes, id) >= 0 ==> nodes[last_position(nodes, id)].id == id,
        (exists|p: int| 0 <= p < nodes.len() && #[trigger] nodes[p].id == id) ==> last_position(nodes, id)
            >= 0,
    decreases nodes.len(),
{
    if nodes.len() > 0 {
        let d = nodes.drop_last();
        lemma_last_position_bounds(d, id);
        if exists|p: int| 0 <= p < nodes.len() && #[trigger] nodes[p].id == id {
            let p = choose|p: int| 0 <= p < nodes.len() && #[trigger] nodes[p].id == id;
            if p < nodes.len() - 1 {
                assert(d[p].id == id);
            }
        }
    }
}

/// Every edge names only ids that some node of `nodes` has.
pub open spec fn ids_known(nodes: Seq<ChNodeInfo>, edges: Seq<ChEdgeInfo>) -> bool {
    forall|k: int|
        0 <= k < edges.len() ==> (exists|p: int| 0 <= p < nodes.len() && #[trigger] nodes[p].id == (
        #[trigger] edges[k]).source) && (exists|p: int|
            0 <= p < nodes.len() && #[trigger] nodes[p].id == edges[k].dest)
}

impl ChGraph {
    /// Rewrites the ends of every edge from node ids to positions in
    /// `node_info`; where ids repeat, the last position counts.
    pub fn map_node_id_to_edges(node_info: &Vec<ChNodeInfo>, edges: &mut Vec<ChEdgeInfo>)
        requires
            ids_known(node_info@, old(edges)@),
        ensures
            final(edges).len() == old(edges).len(),
            forall|k: int|
                0 <= k < final(edges).len() ==> #[trigger] final(edges)@[k] == (ChEdgeInfo {
                    source: last_position(node_info@, old(edges)@[k].source) as usize,
                    dest: last_position(node_info@, old(edges)@[k].dest) as usize,
                    ..old(edges)@[k]
                }),
    {
        broadcast use vstd::std_specs::btree::group_btree_axioms;

        let mut mapping: std::collections::BTreeMap<usize, usize> = std::collections::BTreeMap::new();
        let mut i: usize = 0;
        while i < node_info.len()
            invariant
                0 <= i <= node_info.len(),
                forall|id: usize|
                    #[trigger] mapping@.contains_key(id) <==> last_position(node_info@.take(i as int), id)
                        >= 0,
                forall|id: usize|
                    #[trigger] mapping@.contains_key(id) ==> mapping@[id] == last_position(
                        node_info@.take(i as int),
                        id,
                    ),
            decreases node_info.len() - i,
        {
            let id = node_info[i].id;
            mapping.insert(id, i);
            proof {
                let t1 = node_info@.take(i + 1);
                assert(t1.drop_last() =~= node_info@.take(i as int));
                assert(t1.last().id == id);
                assert forall|k: usize| #[trigger] mapping@.contains_key(k) <==> last_position(t1, k) >= 0 by {
                    lemma_last_position_bounds(node_info@.take(i as int), k);
                }
            }
            i = i + 1;
        }
        proof {
            assert(node_info@.take(i as int) =~= node_info@);
        }
        let ghost old_edges = edges@;
        let mut k: usize = 0;
        while k < edges.len()
            invariant
                edges.len() == old_edges.len(),
                0 <= k <= edges.len(),
                ids_known(node_info@, old_edges),
                forall|id: usize|
                    #[trigger] mapping@.contains_key(id) <==> last_position(node_info@, id) >= 0,
                forall|id: usize|
                    #[trigger] mapping@.contains_key(id) ==> mapping@[id] == last_position(node_info@, id),
                forall|j: int| k <= j < edges.len() ==> #[trigger] edges@[j] == old_edges[j],
                forall|j: int|
                    0 <= j < k ==> #[trigger] edges@[j] == (ChEdgeInfo {
                        source: last_position(node_info@, old_edges[j].source) as usize,
                        dest: last_position(node_info@, old_edges[j].dest) as usize,
                        ..old_edges[j]
                    }),
            decreases edges.len() - k,
        {
            let e = edges[k];
            proof {
                assert(e == old_edges[k as int]);
                lemma_last_position_bounds(node_info@, e.source);
                lemma_last_position_bounds(node_info@, e.dest);
            }
            let source = match mapping.get(&e.source) {
                Some(p) => *p,
                None => e.source,
            };
            let dest = match mapping.get(&e.dest) {
                Some(p) => *p,
                None => e.dest,
            };
            edges.set(k, ChEdgeInfo { source, dest, ..e });
            k = k + 1;
        }
    }
}

} // verus!
