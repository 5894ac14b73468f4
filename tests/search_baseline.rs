use roadch::ch::{ChEdgeInfo, ChGraph, ChNodeInfo};

struct Lcg(u64);

impl Lcg {
    fn next(&mut self, bound: usize) -> usize {
        self.0 = self.0.wrapping_mul(6364136223846793005).wrapping_add(1442695040888963407);
        ((self.0 >> 33) as usize) % bound
    }
}

fn random_graph(seed: u64, n: usize, m: usize, levels: bool) -> (Vec<ChNodeInfo>, Vec<ChEdgeInfo>) {
    let mut rng = Lcg(seed);
    let nodes = (0..n)
        .map(|i| ChNodeInfo::new(i, i, 0, if levels { rng.next(4) } else { 0 }))
        .collect();
    let edges = (0..m)
        .map(|_| ChEdgeInfo::new(rng.next(n), rng.next(n), 1 + rng.next(20), 1, None, None))
        .collect();
    (nodes, edges)
}

fn bellman_ford(n: usize, edges: &[ChEdgeInfo], s: usize) -> Vec<usize> {
    let mut d = vec![usize::MAX; n];
    d[s] = 0;
    for _ in 0..n {
        for e in edges {
            if d[e.source] != usize::MAX && d[e.source] + e.length < d[e.dest] {
                d[e.dest] = d[e.source] + e.length;
            }
        }
    }
    d
}

#[test]
fn uniform_levels_match_bellman_ford() {
    for seed in 0..12u64 {
        let n = 8 + (seed as usize % 5) * 3;
        let (nodes, edges) = random_graph(seed, n, n * 2, false);
        let g = ChGraph::new(nodes, edges.clone());
        let mut d = g.dijkstra();
        for s in 0..n {
            let expect = bellman_ford(n, &edges, s);
            for t in 0..n {
                assert_eq!(d.distance(s, t), expect[t], "seed {} from {} to {}", seed, s, t);
            }
        }
    }
}

#[test]
fn leveled_search_never_beats_shortest_path() {
    for seed in 100..110u64 {
        let n = 12;
        let (nodes, edges) = random_graph(seed, n, 30, true);
        let g = ChGraph::new(nodes, edges.clone());
        let mut d = g.dijkstra();
        for s in 0..n {
            let expect = bellman_ford(n, &edges, s);
            for t in 0..n {
                let got = d.distance(s, t);
                assert!(got >= expect[t], "seed {} from {} to {}", seed, s, t);
            }
        }
    }
}
