use roadch::ch::{ChEdgeInfo, ChGraph, ChNodeInfo, HalfEdge, NodeOffset};

fn nodes(levels: &[usize]) -> Vec<ChNodeInfo> {
    levels
        .iter()
        .enumerate()
        .map(|(i, &l)| ChNodeInfo::new(i, 100 + i, 0, l))
        .collect()
}

fn edge(source: usize, dest: usize, length: usize) -> ChEdgeInfo {
    ChEdgeInfo::new(source, dest, length, 1, None, None)
}

fn five_node_graph() -> ChGraph {
    ChGraph::new(
        nodes(&[0, 0, 0, 0, 0]),
        vec![edge(0, 1, 1), edge(0, 2, 1), edge(2, 3, 1), edge(0, 3, 1), edge(2, 4, 1)],
    )
}

fn he(endpoint: usize, weight: usize) -> HalfEdge {
    HalfEdge { endpoint, weight }
}

#[test]
fn csr_offsets_of_five_node_graph() {
    let g = five_node_graph();
    let out: Vec<usize> = g.node_offsets().iter().map(|o| o.out_start).collect();
    let inn: Vec<usize> = g.node_offsets().iter().map(|o| o.in_start).collect();
    assert_eq!(out, vec![0, 3, 3, 5, 5, 5]);
    assert_eq!(inn, vec![0, 0, 1, 2, 4, 5]);
    assert_eq!(g.node_count(), 5);
}

#[test]
fn outgoing_slices_sorted_by_destination() {
    let g = five_node_graph();
    assert_eq!(g.outgoing_edges_for(0), &[he(1, 1), he(2, 1), he(3, 1)]);
    assert_eq!(g.outgoing_edges_for(1), &[]);
    assert_eq!(g.outgoing_edges_for(2), &[he(3, 1), he(4, 1)]);
    assert_eq!(g.outgoing_edges_for(4), &[]);
}

#[test]
fn ingoing_slices_sorted_by_source() {
    let g = five_node_graph();
    assert_eq!(g.ingoing_edges_for(0), &[]);
    assert_eq!(g.ingoing_edges_for(3), &[he(0, 1), he(2, 1)]);
    assert_eq!(g.ingoing_edges_for(4), &[he(2, 1)]);
}

#[test]
fn slice_lengths_sum_to_edge_count() {
    let g = five_node_graph();
    let out: usize = (0..5).map(|i| g.outgoing_edges_for(i).len()).sum();
    let inn: usize = (0..5).map(|i| g.ingoing_edges_for(i).len()).sum();
    assert_eq!(out, 5);
    assert_eq!(inn, 5);
}

#[test]
fn parallel_edges_are_kept() {
    let g = ChGraph::new(nodes(&[0, 0]), vec![edge(0, 1, 4), edge(0, 1, 2), edge(0, 1, 4)]);
    assert_eq!(g.outgoing_edges_for(0).len(), 3);
    assert_eq!(g.ingoing_edges_for(1).len(), 3);
}

#[test]
fn empty_edge_list_gives_zero_offsets() {
    let g = ChGraph::new(nodes(&[0, 1, 2]), vec![]);
    assert_eq!(g.node_offsets(), &[NodeOffset::new(0, 0); 4]);
    assert_eq!(g.node_count(), 3);
}

#[test]
fn offsets_nondecreasing_and_end_at_edge_count() {
    let g = ChGraph::new(
        nodes(&[0, 0, 0, 0, 0, 0, 0]),
        vec![edge(5, 1, 3), edge(2, 2, 1), edge(5, 0, 2), edge(1, 5, 9)],
    );
    let offs = g.node_offsets();
    assert_eq!(offs.len(), 8);
    for w in offs.windows(2) {
        assert!(w[0].in_start <= w[1].in_start);
        assert!(w[0].out_start <= w[1].out_start);
    }
    assert_eq!(offs[7], NodeOffset::new(4, 4));
    assert_eq!(g.outgoing_edges_for(5), &[he(0, 2), he(1, 3)]);
}

#[test]
fn level_lookup() {
    let g = ChGraph::new(nodes(&[3, 1, 4]), vec![]);
    assert_eq!(g.level(0), 3);
    assert_eq!(g.level(2), 4);
}

#[test]
fn uniform_level_scenario() {
    let g = five_node_graph();
    let mut d = g.dijkstra();
    assert_eq!(d.distance(0, 4), 2);
    assert_eq!(d.distance(1, 4), usize::MAX);
    assert_eq!(d.distance(0, 3), 1);
}

#[test]
fn zero_distance_to_self() {
    let g = five_node_graph();
    let mut d = g.dijkstra();
    for n in 0..5 {
        assert_eq!(d.distance(n, n), 0);
    }
}

#[test]
fn session_reuse_gives_same_answers() {
    let g = five_node_graph();
    let mut d = g.dijkstra();
    let first = d.distance(0, 4);
    let other = d.distance(2, 3);
    let second = d.distance(0, 4);
    assert_eq!(first, second);
    assert_eq!(other, 1);
    assert_eq!(d.distance(1, 4), d.distance(1, 4));
}

#[test]
fn disconnected_components_unreachable() {
    let g = ChGraph::new(
        nodes(&[0, 1, 0, 1]),
        vec![edge(0, 1, 2), edge(1, 0, 2), edge(2, 3, 5), edge(3, 2, 5)],
    );
    let mut d = g.dijkstra();
    assert_eq!(d.distance(0, 2), usize::MAX);
    assert_eq!(d.distance(3, 1), usize::MAX);
    assert_eq!(d.distance(0, 1), 2);
    assert_eq!(d.distance(2, 3), 5);
}

#[test]
fn mirrored_graph_is_symmetric() {
    let mut es = Vec::new();
    for &(a, b, w) in &[(0, 1, 4), (1, 2, 3), (0, 2, 9), (2, 3, 1)] {
        es.push(edge(a, b, w));
        es.push(edge(b, a, w));
    }
    let g = ChGraph::new(nodes(&[0, 1, 2, 3]), es);
    let mut d = g.dijkstra();
    for s in 0..4 {
        for t in 0..4 {
            assert_eq!(d.distance(s, t), d.distance(t, s));
        }
    }
    assert_eq!(d.distance(0, 3), 8);
}

#[test]
fn triangle_inequality_on_hierarchy() {
    // Node 1 is the top of the hierarchy; the shortcut 0 -> 2 stands for 0 -> 1 -> 2.
    let g = ChGraph::new(
        nodes(&[0, 2, 1]),
        vec![edge(0, 1, 2), edge(1, 2, 3), edge(0, 2, 5), edge(2, 1, 3), edge(1, 0, 2)],
    );
    let mut d = g.dijkstra();
    for a in 0..3 {
        for b in 0..3 {
            for c in 0..3 {
                let ab = d.distance(a, b);
                let bc = d.distance(b, c);
                let ac = d.distance(a, c);
                assert!(ac as u128 <= ab as u128 + bc as u128);
            }
        }
    }
}

#[test]
fn level_restriction_prunes_downward_edges() {
    // The only path 0 -> 1 -> 2 climbs to level 5 and then goes down to 2,
    // which the backward search reaches from 2 upward.
    let g = ChGraph::new(nodes(&[1, 5, 0]), vec![edge(0, 1, 7), edge(1, 2, 4)]);
    let mut d = g.dijkstra();
    assert_eq!(d.distance(0, 2), 11);
    // Going down from 1 to 2 forward-only is never needed; 2 -> 0 has no path.
    assert_eq!(d.distance(2, 0), usize::MAX);
}

#[test]
fn cheaper_longer_route_wins() {
    let g = ChGraph::new(
        nodes(&[0, 0, 0, 0]),
        vec![edge(0, 3, 10), edge(0, 1, 2), edge(1, 2, 2), edge(2, 3, 2)],
    );
    let mut d = g.dijkstra();
    assert_eq!(d.distance(0, 3), 6);
}

#[test]
fn node_ids_become_positions() {
    let infos = vec![
        ChNodeInfo::new(40, 1, 0, 0),
        ChNodeInfo::new(10, 2, 0, 0),
        ChNodeInfo::new(30, 3, 0, 0),
        ChNodeInfo::new(10, 4, 0, 0),
    ];
    let mut es = vec![edge(40, 30, 5), edge(10, 40, 6)];
    ChGraph::map_node_id_to_edges(&infos, &mut es);
    assert_eq!(es, vec![edge(0, 2, 5), edge(3, 0, 6)]);
}

#[test]
fn graph_keeps_node_info() {
    let infos = nodes(&[2, 0, 1]);
    let g = ChGraph::new(infos.clone(), vec![edge(0, 1, 3)]);
    assert_eq!(g.node_info(), &infos[..]);
}

#[test]
fn mirrored_ends_with_different_speeds_are_symmetric() {
    let es = vec![
        ChEdgeInfo::new(0, 1, 4, 30, None, None),
        ChEdgeInfo::new(1, 0, 4, 90, Some(7), None),
        ChEdgeInfo::new(1, 2, 6, 50, None, None),
        ChEdgeInfo::new(2, 1, 6, 10, None, Some(2)),
    ];
    let g = ChGraph::new(nodes(&[0, 2, 1]), es);
    let mut d = g.dijkstra();
    assert_eq!(d.distance(0, 2), 10);
    assert_eq!(d.distance(2, 0), 10);
}
