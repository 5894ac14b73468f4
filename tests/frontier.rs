use roadch::frontier::{Frontier, NodeCost};

fn nc(node: usize, cost: usize) -> NodeCost {
    NodeCost { node, cost }
}

#[test]
fn frontier_pops_in_cost_order() {
    let mut f = Frontier::new();
    for (n, c) in [(1, 9), (2, 3), (3, 7), (4, 1), (5, 3), (6, 12), (7, 0)] {
        f.push(nc(n, c));
    }
    assert_eq!(f.len(), 7);
    assert_eq!(f.peek_min().map(|e| e.cost), Some(0));
    let mut costs = Vec::new();
    while let Some(e) = f.pop_min() {
        costs.push(e.cost);
    }
    assert_eq!(costs, vec![0, 1, 3, 3, 7, 9, 12]);
    assert_eq!(f.len(), 0);
}

#[test]
fn empty_frontier() {
    let mut f = Frontier::new();
    assert_eq!(f.peek_min(), None);
    assert_eq!(f.pop_min(), None);
}

#[test]
fn frontier_keeps_duplicates() {
    let mut f = Frontier::new();
    f.push(nc(4, 2));
    f.push(nc(4, 2));
    f.push(nc(1, 5));
    assert_eq!(f.pop_min(), Some(nc(4, 2)));
    assert_eq!(f.pop_min(), Some(nc(4, 2)));
    assert_eq!(f.pop_min(), Some(nc(1, 5)));
}
