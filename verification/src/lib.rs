//! Conflict-graph wave scheduler for transactions inside one block.
//!
//! Each transaction declares which shared resources it reads or writes.
//! A ledger of most-recent accesses turns those declarations into directed
//! blocking edges, a builder materialises the resulting dependency graph,
//! and a wave scheduler drains the graph in priority order, assigning each
//! node a topological generation number ("depth") and emitting the edge
//! observations a visualiser needs.

pub mod access;
pub mod counting;
pub mod export;
pub mod graph;
pub mod laws;
pub mod ledger;
pub mod schedule;
