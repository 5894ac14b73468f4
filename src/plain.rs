//! A plain road graph without levels: edges kept whole, grouped by source in
//! one array, with an offset per node.
use vstd::multiset::Multiset;
use vstd::prelude::*;

use crate::ch::{
    calc_offset_inner, column, lemma_offset_monotone, offset_ok, sort_edges, sorted_by, Edge, Height, Length,
    NodeId, NodeOffset, OffsetMode, OsmNodeId, Speed,
};

verus! {

/// A node of the plain graph. Its position in the node list is its id.
#[derive(PartialEq, Eq, Debug, Clone, Copy)]
pub struct NodeInfo {
    pub osm_id: OsmNodeId,
    pub height: Height,
}

impl NodeInfo {
    pub fn new(osm_id: OsmNodeId, height: Height) -> (r: NodeInfo)
        ensures
            r == (NodeInfo { osm_id, height }),
    {
        NodeInfo { osm_id, height }
    }
}

/// A directed edge `source -> dest` with its length and speed.
#[derive(PartialEq, Eq, Debug, Clone, Copy)]
pub struct EdgeInfo {
    pub source: NodeId,
    pub dest: NodeId,
    pub length: Length,
    pub speed: Speed,
}

impl EdgeInfo {
    pub fn new(source: NodeId, dest: NodeId, length: Length, speed: Speed) -> (r: EdgeInfo)
        ensures
            r == (EdgeInfo { source, dest, length, speed }),
    {
        EdgeInfo { source, dest, length, speed }
    }
}

impl Edge for EdgeInfo {
    open spec fn source_node(&self) -> NodeId {
        self.source
    }

    open spec fn dest_node(&self) -> NodeId {
        self.dest
    }

    fn get_source_id(&self) -> (r: NodeId) {
        self.source
    }

    fn get_dest_id(&self) -> (r: NodeId) {
        self.dest
    }
}

/// A graph whose out-slice for node `i` holds the edges leaving `i`,
/// ordered by destination.
pub struct Graph<E: Edge> {
    node_info: Vec<NodeInfo>,
    node_offsets: Vec<NodeOffset>,
    edges: Vec<E>,
}

/// The edges of `m` that leave `i`.
pub open spec fn leaving<E: Edge>(m: Multiset<E>, i: int) -> Multiset<E> {
    m.filter(|e: E| e.source_node() == i)
}

proof fn lemma_slice_multiset<E: Edge>(s: Seq<E>, i: int, lo: int, hi: int)
    requires
        offset_ok(s, OffsetMode::Out, i, lo),
        offset_ok(s, OffsetMode::Out, i + 1, hi),
        lo <= hi,
    ensures
        s.subrange(lo, hi).to_multiset() == leaving(s.to_multiset(), i),
{
    broadcast use vstd::seq_lib::group_to_multiset_ensures;
    broadcast use vstd::multiset::group_multiset_axioms;

    let pre = s.subrange(0, lo);
    let mid = s.subrange(lo, hi);
    let post = s.subrange(hi, s.len() as int);
    assert(s =~= pre + mid + post);
    vstd::seq_lib::lemma_multiset_commutative(pre + mid, post);
    vstd::seq_lib::lemma_multiset_commutative(pre, mid);
    assert forall|x: E| #[trigger] mid.to_multiset().count(x) == leaving(s.to_multiset(), i).count(x) by {
        if x.source_node() == i {
            if pre.contains(x) {
                let k = choose|k: int| 0 <= k < pre.len() && pre[k] == x;
                assert(s[k] == x);
            }
            if post.contains(x) {
                let k = choose|k: int| 0 <= k < post.len() && post[k] == x;
                assert(s[hi + k] == x);
            }
        } else {
            if mid.contains(x) {
                let k = choose|k: int| 0 <= k < mid.len() && mid[k] == x;
                assert(s[lo + k] == x);
            }
        }
    }
    assert(mid.to_multiset() =~= leaving(s.to_multiset(), i));
}

impl<E: Edge> Graph<E> {
    pub closed spec fn spec_node_count(&self) -> usize {
        self.node_info.len()
    }

    /// Where the out-slice of node `i` starts; entry `node_count` is the
    /// number of edges.
    pub closed spec fn offset(&self, i: int) -> int {
        self.node_offsets@[i].out_start as int
    }

    /// All edges, grouped by source.
    pub closed spec fn edge_seq(&self) -> Seq<E> {
        self.edges@
    }

    /// The nodes as given to `new`.
    pub closed spec fn node_seq(&self) -> Seq<NodeInfo> {
        self.node_info@
    }

    /// The number of entries of the offset table.
    pub closed spec fn offset_count(&self) -> int {
        self.node_offsets.len() as int
    }

    pub open spec fn out_slice(&self, i: int) -> Seq<E> {
        self.edge_seq().subrange(self.offset(i), self.offset(i + 1))
    }

    pub closed spec fn wf(&self) -> bool {
        let n = self.spec_node_count() as int;
        &&& self.node_offsets.len() == n + 1
        &&& forall|i: int, j: int| 0 <= i <= j <= n ==> self.offset(i) <= self.offset(j)
        &&& self.offset(0) == 0
        &&& self.offset(n) == self.edges.len()
    }

    /// Builds the graph: node `i` is `node_info[i]`; every edge must join two
    /// of these nodes. Parallel edges are kept.
    pub fn new(node_info: Vec<NodeInfo>, edges: Vec<E>) -> (g: Graph<E>)
        requires
            node_info.len() < usize::MAX,
            forall|k: int|
                0 <= k < edges.len() ==> (#[trigger] edges@[k]).source_node() < node_info.len()
                    && edges@[k].dest_node() < node_info.len(),
        ensures
            g.wf(),
            g.node_count() == node_info.len(),
            g.node_seq() == node_info@,
            g.offset_count() == node_info.len() + 1,
            g.edge_seq().len() == edges.len(),
            g.edge_seq().to_multiset() == edges@.to_multiset(),
            sorted_by(g.edge_seq(), OffsetMode::Out),
            g.offset(0) == 0,
            g.offset(g.node_count() as int) == edges.len(),
            forall|i: int, j: int|
                0 <= i <= j <= g.node_count() ==> #[trigger] g.offset(i) <= #[trigger] g.offset(j),
            forall|i: int|
                0 <= i < g.node_count() ==> (#[trigger] g.out_slice(i)).to_multiset() == leaving(
                    edges@.to_multiset(),
                    i,
                ),
            forall|i: int, a: int, b: int|
                0 <= i < g.node_count() && 0 <= a <= b < g.out_slice(i).len() ==> (
                #[trigger] g.out_slice(i)[a]).dest_node() <= (
                #[trigger] g.out_slice(i)[b]).dest_node(),
    {
        broadcast use vstd::seq_lib::group_to_multiset_ensures;

        let ghost orig = edges@;
        let n = node_info.len();
        let mut edges = edges;
        sort_edges(&mut edges, OffsetMode::Out);
        let ghost sorted = edges@;
        proof {
            assert forall|k: int| 0 <= k < sorted.len() implies 0 <= crate::ch::group_of(
                #[trigger] sorted[k],
                OffsetMode::Out,
            ) < n by {
                assert(sorted.contains(sorted[k]));
                assert(orig.to_multiset().count(sorted[k]) > 0);
                let j = choose|j: int| 0 <= j < orig.len() && orig[j] == sorted[k];
                assert(orig[j].source_node() < n);
            }
        }
        let mut node_offsets = vec![NodeOffset::new(0, 0); n + 1];
        proof {
            assert(cloned(NodeOffset { in_start: 0, out_start: 0 }, node_offsets@[0]));
        }
        calc_offset_inner(&edges, &mut node_offsets, OffsetMode::Out);
        let g = Graph { node_info, node_offsets, edges };
        proof {
            let offs = g.node_offsets@;
            vstd::seq_lib::to_multiset_len(sorted);
            vstd::seq_lib::to_multiset_len(orig);
            assert forall|i: int, j: int| 0 <= i <= j <= n implies #[trigger] g.offset(i) <= #[trigger] g.offset(j) by {
                assert(offset_ok(sorted, OffsetMode::Out, i, column(offs[i], OffsetMode::Out)));
                assert(offset_ok(sorted, OffsetMode::Out, j, column(offs[j], OffsetMode::Out)));
                lemma_offset_monotone(sorted, OffsetMode::Out, i, g.offset(i), j, g.offset(j));
            }
            assert(offset_ok(sorted, OffsetMode::Out, 0, column(offs[0], OffsetMode::Out)));
            if g.offset(0) > 0 {
                assert(crate::ch::group_of(sorted[0], OffsetMode::Out) < 0);
            }
            assert(offset_ok(sorted, OffsetMode::Out, n as int, column(offs[n as int], OffsetMode::Out)));
            if g.offset(n as int) < sorted.len() {
                assert(crate::ch::group_of(sorted[g.offset(n as int)], OffsetMode::Out) >= n);
            }
            assert forall|i: int| 0 <= i < n implies (#[trigger] g.out_slice(i)).to_multiset() == leaving(
                orig.to_multiset(),
                i,
            ) by {
                assert(offset_ok(sorted, OffsetMode::Out, i, column(offs[i], OffsetMode::Out)));
                assert(offset_ok(sorted, OffsetMode::Out, i + 1, column(offs[i + 1], OffsetMode::Out)));
                assert(g.offset(i) <= g.offset(i + 1));
                lemma_slice_multiset(sorted, i, g.offset(i), g.offset(i + 1));
            }
            assert forall|i: int, a: int, b: int|
                0 <= i < n && 0 <= a <= b < g.out_slice(i).len() implies (
                #[trigger] g.out_slice(i)[a]).dest_node() <= (#[trigger] g.out_slice(i)[b]).dest_node() by {
                let lo = g.offset(i);
                assert(offset_ok(sorted, OffsetMode::Out, i, column(offs[i], OffsetMode::Out)));
                assert(offset_ok(sorted, OffsetMode::Out, i + 1, column(offs[i + 1], OffsetMode::Out)));
                assert(g.offset(i) <= g.offset(i + 1));
                assert(g.out_slice(i)[a] == sorted[lo + a]);
                assert(g.out_slice(i)[b] == sorted[lo + b]);
                assert(crate::ch::edge_le(sorted[lo + a], sorted[lo + b], OffsetMode::Out));
            }
        }
        g
    }

    /// The edges leaving `id`, ordered by destination.
    pub fn outgoing_edges_for(&self, id: NodeId) -> (r: &[E])
        requires
            self.wf(),
            id < self.node_count(),
        ensures
            r@ == self.out_slice(id as int),
    {
        proof {
            assert(self.offset(0) <= self.offset(id as int));
            assert(self.offset(id as int) <= self.offset(id + 1));
            assert(self.offset(id + 1) <= self.offset(self.node_count() as int));
        }
        let lo = self.node_offsets[id].out_start;
        let hi = self.node_offsets[id + 1].out_start;
        vstd::slice::slice_subrange(self.edges.as_slice(), lo, hi)
    }

    /// The nodes as given to `new`.
    pub fn node_info(&self) -> (r: &[NodeInfo])
        ensures
            r@ == self.node_seq(),
    {
        self.node_info.as_slice()
    }

    /// The number of nodes.
    #[verifier::when_used_as_spec(spec_node_count)]
    pub fn node_count(&self) -> (r: usize)
        ensures
            r == self.spec_node_count(),
    {
        self.node_info.len()
    }

    /// Where the out-slice of node `i` starts.
    pub fn node_offset(&self, i: usize) -> (r: usize)
        requires
            self.wf(),
            i <= self.node_count(),
        ensures
            r == self.offset(i as int),
    {
        self.node_offsets[i].out_start
    }
}

} // verus!
