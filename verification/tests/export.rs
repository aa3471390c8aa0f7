use wave_graph::access::{Access, AccessKind};
use wave_graph::export::{GraphiaInput, GraphiaInputGraph};
use wave_graph::graph::{ConflictGraph, TxDetails};

fn sample_graph() -> ConflictGraph {
    // T0 writes {A}, T1 reads {A}, T2 writes {A}: the classic chain
    let mut g = ConflictGraph::new();
    g.insert_transaction(
        10,
        TxDetails { signature: String::from("sig-a"), num_signatures: 1, fee: 5000, compute: 150 },
        &vec![Access { key: 0, kind: AccessKind::Write }],
    );
    g.insert_transaction(
        11,
        TxDetails { signature: String::from("sig-b"), num_signatures: 2, fee: 5001, compute: 0 },
        &vec![Access { key: 0, kind: AccessKind::Read }],
    );
    g.insert_transaction(
        12,
        TxDetails { signature: String::from("sig-c"), num_signatures: 1, fee: 5002, compute: 99 },
        &vec![Access { key: 0, kind: AccessKind::Write }],
    );
    g
}

#[test]
fn default_graph_is_directed_and_empty() {
    let g = GraphiaInputGraph::default();
    assert!(g.directed);
    assert!(g.edges.is_empty());
    assert!(g.nodes.is_empty());
    let d = GraphiaInput::default();
    assert!(d.graph.directed);
}

#[test]
fn node_rows_carry_external_ids_and_metadata() {
    let mut g = sample_graph();
    let obs = g.drain_waves();
    let doc = g.to_graphia(&obs, false);
    assert!(doc.graph.directed);
    assert_eq!(doc.graph.nodes.len(), 3);
    assert_eq!(doc.graph.nodes[0].id, "10");
    assert_eq!(doc.graph.nodes[1].id, "11");
    assert_eq!(doc.graph.nodes[2].id, "12");
    assert_eq!(doc.graph.nodes[0].metadata.signature, "sig-a");
    assert_eq!(doc.graph.nodes[0].metadata.fee, 5000);
    assert_eq!(doc.graph.nodes[0].metadata.compute, 150);
    assert_eq!(doc.graph.nodes[1].metadata.num_signatures, 2);
    assert_eq!(doc.graph.nodes[0].metadata.depth, 1);
    assert_eq!(doc.graph.nodes[1].metadata.depth, 2);
    assert_eq!(doc.graph.nodes[2].metadata.depth, 3);
}

#[test]
fn filtered_edges_keep_their_observation_ids() {
    let mut g = sample_graph();
    let obs = g.drain_waves();
    // observations: 0->1 resolving, 0->2 blocked, 1->2 resolving
    let doc = g.to_graphia(&obs, false);
    assert_eq!(doc.graph.edges.len(), 2);
    // the dropped observation still advanced the id counter
    assert_eq!(doc.graph.edges[0].id, "0");
    assert_eq!(doc.graph.edges[0].source, "10");
    assert_eq!(doc.graph.edges[0].target, "11");
    assert_eq!(doc.graph.edges[1].id, "2");
    assert_eq!(doc.graph.edges[1].source, "11");
    assert_eq!(doc.graph.edges[1].target, "12");
}

#[test]
fn verbose_mode_keeps_every_observation() {
    let mut g = sample_graph();
    let obs = g.drain_waves();
    let doc = g.to_graphia(&obs, true);
    assert_eq!(doc.graph.edges.len(), 3);
    assert_eq!(doc.graph.edges[0].id, "0");
    assert_eq!(doc.graph.edges[1].id, "1");
    assert_eq!(doc.graph.edges[1].source, "10");
    assert_eq!(doc.graph.edges[1].target, "12");
    assert_eq!(doc.graph.edges[2].id, "2");
}
