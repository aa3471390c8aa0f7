use wave_graph::access::{Access, AccessKind};
use wave_graph::graph::{ConflictGraph, TxDetails};

fn details() -> TxDetails {
    TxDetails { signature: String::from("sig"), num_signatures: 1, fee: 0, compute: 0 }
}

fn mixed_graph() -> ConflictGraph {
    let mut g = ConflictGraph::new();
    let specs: [&[(usize, bool)]; 5] = [
        &[(0, true), (1, false)],
        &[(0, false), (2, true)],
        &[(1, true), (2, false)],
        &[(0, true), (2, true)],
        &[(1, false)],
    ];
    for (i, accs) in specs.iter().enumerate() {
        let accesses: Vec<Access> = accs
            .iter()
            .map(|&(key, w)| Access {
                key,
                kind: if w { AccessKind::Write } else { AccessKind::Read },
            })
            .collect();
        g.insert_transaction(i, details(), &accesses);
    }
    g
}

#[test]
fn every_edge_points_forward() {
    let g = mixed_graph();
    for (slot, node) in g.nodes.iter().enumerate() {
        for &succ in &node.succs {
            assert!(succ > slot, "edge {} -> {} points backwards", slot, succ);
            assert!(succ < g.nodes.len());
        }
    }
}

#[test]
fn every_edge_crosses_into_a_deeper_wave() {
    let mut g = mixed_graph();
    let obs = g.drain_waves();
    for o in &obs {
        assert!(g.nodes[o.source].depth < g.nodes[o.target].depth);
    }
}

#[test]
fn kept_edge_count_matches_resolving_count() {
    let mut g = mixed_graph();
    let obs = g.drain_waves();
    let resolving = obs.iter().filter(|o| o.resolving).count();
    let quiet = g.to_graphia(&obs, false);
    assert_eq!(quiet.graph.edges.len(), resolving);
    let verbose = g.to_graphia(&obs, true);
    assert_eq!(verbose.graph.edges.len(), obs.len());
}

#[test]
fn blocking_counts_reach_zero_after_draining() {
    let mut g = mixed_graph();
    g.drain_waves();
    for node in &g.nodes {
        assert_eq!(node.blocking, 0);
        assert!(node.depth >= 1);
        assert!(node.depth <= g.nodes.len());
    }
}
