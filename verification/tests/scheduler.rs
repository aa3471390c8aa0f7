use wave_graph::access::{Access, AccessKind};
use wave_graph::export::decimal_string;
use wave_graph::graph::{ConflictGraph, TxDetails};
use wave_graph::ledger::AccessLedger;
use wave_graph::schedule::EdgeObs;

fn details(sig: &str, fee: u64, compute: u64) -> TxDetails {
    TxDetails {
        signature: String::from(sig),
        num_signatures: 1,
        fee,
        compute,
    }
}

fn writes(key: usize) -> Access {
    Access { key, kind: AccessKind::Write }
}

fn reads(key: usize) -> Access {
    Access { key, kind: AccessKind::Read }
}

fn edge(obs: &[EdgeObs], source: usize, target: usize) -> Option<EdgeObs> {
    obs.iter()
        .find(|o| o.source == source && o.target == target)
        .copied()
}

#[test]
fn ledger_write_blocks_readers_and_writer() {
    let mut ledger = AccessLedger::new();
    assert_eq!(ledger.record(7, AccessKind::Write, 0), Vec::<usize>::new());
    assert_eq!(ledger.record(7, AccessKind::Read, 1), vec![0]);
    assert_eq!(ledger.record(7, AccessKind::Read, 2), vec![0]);
    // a write waits for the last writer and every reader since it
    assert_eq!(ledger.record(7, AccessKind::Write, 3), vec![0, 1, 2]);
    // after the write, the reader set starts over
    assert_eq!(ledger.record(7, AccessKind::Read, 4), vec![3]);
}

#[test]
fn ledger_unseen_key_has_no_blockers() {
    let mut ledger = AccessLedger::new();
    assert_eq!(ledger.record(123, AccessKind::Read, 0), Vec::<usize>::new());
}

#[test]
fn write_read_write_chain() {
    // T0 writes {A}, T1 reads {A}, T2 writes {A}
    let mut g = ConflictGraph::new();
    g.insert_transaction(0, details("s0", 1, 10), &vec![writes(0)]);
    g.insert_transaction(1, details("s1", 2, 20), &vec![reads(0)]);
    g.insert_transaction(2, details("s2", 3, 30), &vec![writes(0)]);
    let obs = g.drain_waves();

    assert_eq!(g.nodes[0].depth, 1);
    assert_eq!(g.nodes[1].depth, 2);
    assert_eq!(g.nodes[2].depth, 3);

    // edges T0->T1, T0->T2, T1->T2, each observed exactly once
    assert_eq!(obs.len(), 3);
    let e01 = edge(&obs, 0, 1).expect("edge 0->1");
    let e02 = edge(&obs, 0, 2).expect("edge 0->2");
    let e12 = edge(&obs, 1, 2).expect("edge 1->2");
    assert!(e01.resolving);
    assert!(!e02.resolving); // T2 still waits for T1
    assert!(e12.resolving);
}

#[test]
fn disjoint_transactions_share_the_first_wave() {
    let mut g = ConflictGraph::new();
    g.insert_transaction(0, details("s0", 1, 0), &vec![writes(0), reads(1)]);
    g.insert_transaction(1, details("s1", 1, 0), &vec![writes(2), reads(3)]);
    let obs = g.drain_waves();
    assert!(obs.is_empty());
    assert_eq!(g.nodes[0].depth, 1);
    assert_eq!(g.nodes[1].depth, 1);
}

#[test]
fn empty_access_list_is_immediately_ready() {
    let mut g = ConflictGraph::new();
    g.insert_transaction(0, details("s0", 1, 0), &vec![writes(5)]);
    g.insert_transaction(1, details("s1", 1, 0), &vec![]);
    g.insert_transaction(2, details("s2", 1, 0), &vec![writes(5)]);
    let obs = g.drain_waves();
    // the empty transaction is never blocked, whatever else the block holds
    assert_eq!(g.nodes[1].depth, 1);
    assert_eq!(g.nodes[0].depth, 1);
    assert_eq!(g.nodes[2].depth, 2);
    assert_eq!(obs.len(), 1);
}

#[test]
fn duplicate_blockers_are_counted_once() {
    // T1 writes then reads the same resource: T0 must block it exactly once
    let mut g = ConflictGraph::new();
    g.insert_transaction(0, details("s0", 1, 0), &vec![writes(0)]);
    g.insert_transaction(1, details("s1", 1, 0), &vec![writes(0), reads(0)]);
    assert_eq!(g.nodes[1].blocking, 1);
    let obs = g.drain_waves();
    assert_eq!(obs.len(), 1);
    assert_eq!(g.nodes[1].depth, 2);
}

#[test]
fn readers_do_not_block_each_other() {
    let mut g = ConflictGraph::new();
    g.insert_transaction(0, details("s0", 1, 0), &vec![reads(0)]);
    g.insert_transaction(1, details("s1", 1, 0), &vec![reads(0)]);
    g.insert_transaction(2, details("s2", 1, 0), &vec![writes(0)]);
    let obs = g.drain_waves();
    assert_eq!(g.nodes[0].depth, 1);
    assert_eq!(g.nodes[1].depth, 1);
    assert_eq!(g.nodes[2].depth, 2);
    // both readers block the writer; no edge between the readers
    assert_eq!(obs.len(), 2);
    assert!(edge(&obs, 0, 1).is_none());
    assert!(edge(&obs, 1, 0).is_none());
    assert!(!edge(&obs, 0, 2).expect("edge 0->2").resolving);
    assert!(edge(&obs, 1, 2).expect("edge 1->2").resolving);
}

#[test]
fn observation_count_equals_total_out_degree() {
    let mut g = ConflictGraph::new();
    g.insert_transaction(0, details("s0", 1, 0), &vec![writes(0), writes(1)]);
    g.insert_transaction(1, details("s1", 1, 0), &vec![reads(0)]);
    g.insert_transaction(2, details("s2", 1, 0), &vec![reads(1)]);
    g.insert_transaction(3, details("s3", 1, 0), &vec![writes(0), writes(1)]);
    let out_degree_sum: usize = g.nodes.iter().map(|n| n.succs.len()).sum();
    let obs = g.drain_waves();
    assert_eq!(obs.len(), out_degree_sum);
}

#[test]
fn redraining_a_rebuilt_graph_is_identical() {
    let build = || {
        let mut g = ConflictGraph::new();
        g.insert_transaction(0, details("s0", 1, 0), &vec![writes(0), reads(2)]);
        g.insert_transaction(1, details("s1", 1, 0), &vec![reads(0), writes(1)]);
        g.insert_transaction(2, details("s2", 1, 0), &vec![writes(2), reads(1)]);
        g.insert_transaction(3, details("s3", 1, 0), &vec![writes(0), writes(1), writes(2)]);
        g
    };
    let mut g1 = build();
    let mut g2 = build();
    let obs1 = g1.drain_waves();
    let obs2 = g2.drain_waves();
    assert_eq!(obs1, obs2);
    for i in 0..g1.nodes.len() {
        assert_eq!(g1.nodes[i].depth, g2.nodes[i].depth);
    }
}

#[test]
fn waves_never_outnumber_nodes() {
    let mut g = ConflictGraph::new();
    for i in 0..6 {
        g.insert_transaction(i, details("s", 1, 0), &vec![writes(0)]);
    }
    g.drain_waves();
    for i in 0..6 {
        assert_eq!(g.nodes[i].depth, i + 1);
        assert!(g.nodes[i].depth <= 6);
    }
}

#[test]
fn empty_graph_drains_to_nothing() {
    let mut g = ConflictGraph::new();
    let obs = g.drain_waves();
    assert!(obs.is_empty());
    assert!(g.nodes.is_empty());
}

#[test]
fn decimal_strings_match_std_formatting() {
    assert_eq!(decimal_string(0), "0");
    assert_eq!(decimal_string(7), "7");
    assert_eq!(decimal_string(42), "42");
    assert_eq!(decimal_string(1000), "1000");
    assert_eq!(decimal_string(1234567890), 1234567890usize.to_string());
    assert_eq!(decimal_string(usize::MAX), usize::MAX.to_string());
}
