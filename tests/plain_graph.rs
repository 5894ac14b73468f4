use roadch::plain::{EdgeInfo, Graph, NodeInfo};

fn sample() -> Graph<EdgeInfo> {
    Graph::new(
        vec![
            NodeInfo::new(23, 12),
            NodeInfo::new(27, 12),
            NodeInfo::new(53, 12),
            NodeInfo::new(36, 12),
            NodeInfo::new(78, 12),
        ],
        vec![
            EdgeInfo::new(0, 1, 1, 1),
            EdgeInfo::new(0, 2, 1, 1),
            EdgeInfo::new(2, 3, 1, 1),
            EdgeInfo::new(0, 3, 1, 1),
            EdgeInfo::new(2, 4, 1, 1),
        ],
    )
}

fn offsets(g: &Graph<EdgeInfo>) -> Vec<usize> {
    (0..=g.node_count()).map(|i| g.node_offset(i)).collect()
}

#[test]
fn ae1_graph_creation() {
    let g = sample();
    let exp = vec![0, 3, 3, 5, 5, 5];
    assert_eq!(offsets(&g).len(), exp.len());
    assert_eq!(offsets(&g), exp);

    assert_eq!(g.outgoing_edges_for(0).len(), 3);
    assert_eq!(g.outgoing_edges_for(2), &[EdgeInfo::new(2, 3, 1, 1), EdgeInfo::new(2, 4, 1, 1)]);
}

#[test]
fn mod_graph_creation() {
    let g = sample();
    let exp = vec![0, 3, 3, 5, 5, 5];
    assert_eq!(offsets(&g).len(), exp.len());
    assert_eq!(offsets(&g), exp);

    assert_eq!(g.outgoing_edges_for(0).len(), 3);
    assert_eq!(g.outgoing_edges_for(2), &[EdgeInfo::new(2, 3, 1, 1), EdgeInfo::new(2, 4, 1, 1)]);
}

#[test]
fn plain_graph_sorts_by_source_then_destination() {
    let g = Graph::new(
        vec![NodeInfo::new(1, 0), NodeInfo::new(2, 0), NodeInfo::new(3, 0)],
        vec![EdgeInfo::new(2, 1, 5, 1), EdgeInfo::new(2, 0, 6, 1), EdgeInfo::new(0, 2, 7, 1)],
    );
    assert_eq!(offsets(&g), vec![0, 1, 1, 3]);
    assert_eq!(g.outgoing_edges_for(2), &[EdgeInfo::new(2, 0, 6, 1), EdgeInfo::new(2, 1, 5, 1)]);
    assert_eq!(g.outgoing_edges_for(1), &[]);
}

#[test]
fn plain_graph_without_edges() {
    let g: Graph<EdgeInfo> = Graph::new(vec![NodeInfo::new(1, 0), NodeInfo::new(2, 0)], vec![]);
    assert_eq!(offsets(&g), vec![0, 0, 0]);
    assert_eq!(g.node_count(), 2);
}

#[test]
fn plain_graph_keeps_node_info() {
    let infos = vec![NodeInfo::new(7, 1), NodeInfo::new(8, 2)];
    let g = Graph::new(infos.clone(), vec![EdgeInfo::new(1, 0, 3, 3)]);
    assert_eq!(g.node_info(), &infos[..]);
}
