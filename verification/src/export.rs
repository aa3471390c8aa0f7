use vstd::prelude::*;
use vstd::string::StringExecFns;
use crate::counting::{count_when, lemma_count_mono};
use crate::graph::ConflictGraph;
use crate::schedule::EdgeObs;

verus! {

/// The document handed to the visualiser.
pub struct GraphiaInput {
    pub graph: GraphiaInputGraph,
}

pub struct GraphiaInputGraph {
    pub directed: bool,
    pub edges: Vec<GraphiaInputEdge>,
    pub nodes: Vec<GraphiaInputNode>,
}

pub struct GraphiaInputEdge {
    pub id: String,
    pub source: String,
    pub target: String,
}

pub struct GraphiaInputNode {
    pub id: String,
    pub metadata: GraphiaInputNodeMetaData,
}

pub struct GraphiaInputNodeMetaData {
    pub signature: String,
    pub num_signatures: usize,
    pub fee: u64,
    pub compute: u64,
    pub depth: usize,
}

impl Default for GraphiaInputGraph {
    /// An empty directed graph.
    fn default() -> (r: Self)
        ensures
            r.directed == true,
            r.edges@ == Seq::<GraphiaInputEdge>::empty(),
            r.nodes@ == Seq::<GraphiaInputNode>::empty(),
    {
        GraphiaInputGraph { directed: true, edges: Vec::new(), nodes: Vec::new() }
    }
}

impl Default for GraphiaInput {
    /// A document holding an empty directed graph.
    fn default() -> (r: Self)
        ensures
            r.graph.directed == true,
            r.graph.edges@ == Seq::<GraphiaInputEdge>::empty(),
            r.graph.nodes@ == Seq::<GraphiaInputNode>::empty(),
    {
        GraphiaInput { graph: GraphiaInputGraph::default() }
    }
}

/// The decimal digit character for `0 <= d <= 9`.
pub open spec fn dec_digit(d: int) -> char {
    if d == 0 {
        '0'
    } else if d == 1 {
        '1'
    } else if d == 2 {
        '2'
    } else if d == 3 {
        '3'
    } else if d == 4 {
        '4'
    } else if d == 5 {
        '5'
    } else if d == 6 {
        '6'
    } else if d == 7 {
        '7'
    } else if d == 8 {
        '8'
    } else {
        '9'
    }
}

/// The decimal representation of `n >= 0`, most significant digit first,
/// without leading zeroes (a single `'0'` for zero).
pub open spec fn dec_rep(n: int) -> Seq<char>
    decreases n,
{
    if n < 10 {
        seq![dec_digit(n)]
    } else {
        dec_rep(n / 10).push(dec_digit(n % 10))
    }
}

/// Append the decimal representation of `n` to `out`.
fn push_decimal(out: &mut String, n: usize)
    ensures
        final(out)@ == old(out)@ + dec_rep(n as int),
    decreases n,
{
    let ghost pre = out@;
    if n >= 10 {
        push_decimal(out, n / 10);
    }
    let d = n % 10;
    proof {
        reveal_strlit("0");
        reveal_strlit("1");
        reveal_strlit("2");
        reveal_strlit("3");
        reveal_strlit("4");
        reveal_strlit("5");
        reveal_strlit("6");
        reveal_strlit("7");
        reveal_strlit("8");
        reveal_strlit("9");
    }
    if d == 0 {
        out.append("0");
    } else if d == 1 {
        out.append("1");
    } else if d == 2 {
        out.append("2");
    } else if d == 3 {
        out.append("3");
    } else if d == 4 {
        out.append("4");
    } else if d == 5 {
        out.append("5");
    } else if d == 6 {
        out.append("6");
    } else if d == 7 {
        out.append("7");
    } else if d == 8 {
        out.append("8");
    } else {
        out.append("9");
    }
    proof {
        if n >= 10 {
            assert(pre + dec_rep(n as int / 10) + seq![dec_digit(n as int % 10)] =~= pre + dec_rep(
                n as int,
            ));
        } else {
            assert(pre + seq![dec_digit(n as int)] =~= pre + dec_rep(n as int));
        }
    }
}

/// The decimal string of `n`, as `n.to_string()` would print it.
pub fn decimal_string(n: usize) -> (r: String)
    ensures
        r@ == dec_rep(n as int),
{
    let mut out = String::new();
    push_decimal(&mut out, n);
    proof {
        assert(Seq::<char>::empty() + dec_rep(n as int) =~= dec_rep(n as int));
    }
    out
}

/// Keep an observation when it resolved its target, or always in verbose
/// mode.
pub open spec fn keep_obs(o: EdgeObs, verbose: bool) -> bool {
    o.resolving || verbose
}

/// How many of the first `upto` observations are kept: the output position
/// of the next kept one.
pub open spec fn kept_before(obs: Seq<EdgeObs>, verbose: bool, upto: int) -> int {
    count_when(|k: int| 0 <= k < obs.len() && keep_obs(obs[k], verbose), upto)
}

impl ConflictGraph {
    /// Render the drained graph and its edge observations as a Graphia
    /// document: one node row per transaction (its id and depth as decimal
    /// strings and numbers), and one edge row per kept observation, whose
    /// id is the observation's position in the full list — so filtered-out
    /// observations leave holes in the edge numbering, as the counter
    /// advances for every observation.
    pub fn to_graphia(&self, obs: &Vec<EdgeObs>, verbose: bool) -> (r: GraphiaInput)
        requires
            forall|k: int|
                0 <= k < obs@.len() ==> (((#[trigger] obs@[k].source) as int) < self.nodes@.len()
                    && (obs@[k].target as int) < self.nodes@.len()),
        ensures
            r.graph.directed == true,
            r.graph.nodes@.len() == self.nodes@.len(),
            forall|i: int|
                0 <= i < self.nodes@.len() ==> {
                    &&& (#[trigger] r.graph.nodes@[i]).id@ == dec_rep(
                        self.nodes@[i].ext_id as int,
                    )
                    &&& r.graph.nodes@[i].metadata.signature == self.nodes@[i].details.signature
                    &&& r.graph.nodes@[i].metadata.num_signatures
                        == self.nodes@[i].details.num_signatures
                    &&& r.graph.nodes@[i].metadata.fee == self.nodes@[i].details.fee
                    &&& r.graph.nodes@[i].metadata.compute == self.nodes@[i].details.compute
                    &&& r.graph.nodes@[i].metadata.depth == self.nodes@[i].depth
                },
            r.graph.edges@.len() == kept_before(obs@, verbose, obs@.len() as int),
            forall|k: int|
                0 <= k < obs@.len() && keep_obs(#[trigger] obs@[k], verbose) ==> {
                    let j = kept_before(obs@, verbose, k);
                    &&& 0 <= j < r.graph.edges@.len()
                    &&& r.graph.edges@[j].id@ == dec_rep(k)
                    &&& r.graph.edges@[j].source@ == dec_rep(
                        self.nodes@[obs@[k].source as int].ext_id as int,
                    )
                    &&& r.graph.edges@[j].target@ == dec_rep(
                        self.nodes@[obs@[k].target as int].ext_id as int,
                    )
                },
    {
        let mut out = GraphiaInput::default();
        let n = self.nodes.len();
        let mut i: usize = 0;
        while i < n
            invariant
                i <= n,
                n as int == self.nodes@.len(),
                out.graph.directed == true,
                out.graph.edges@.len() == 0,
                out.graph.nodes@.len() == i as int,
                forall|q: int|
                    0 <= q < i as int ==> {
                        &&& (#[trigger] out.graph.nodes@[q]).id@ == dec_rep(
                            self.nodes@[q].ext_id as int,
                        )
                        &&& out.graph.nodes@[q].metadata.signature
                            == self.nodes@[q].details.signature
                        &&& out.graph.nodes@[q].metadata.num_signatures
                            == self.nodes@[q].details.num_signatures
                        &&& out.graph.nodes@[q].metadata.fee == self.nodes@[q].details.fee
                        &&& out.graph.nodes@[q].metadata.compute == self.nodes@[q].details.compute
                        &&& out.graph.nodes@[q].metadata.depth == self.nodes@[q].depth
                    },
            decreases n as int - i as int,
        {
            let node = &self.nodes[i];
            let row = GraphiaInputNode {
                id: decimal_string(node.ext_id),
                metadata: GraphiaInputNodeMetaData {
                    signature: node.details.signature.clone(),
                    num_signatures: node.details.num_signatures,
                    fee: node.details.fee,
                    compute: node.details.compute,
                    depth: node.depth,
                },
            };
            out.graph.nodes.push(row);
            i += 1;
        }
        let mut k: usize = 0;
        while k < obs.len()
            invariant
                k <= obs@.len(),
                n as int == self.nodes@.len(),
                forall|kk: int|
                    0 <= kk < obs@.len() ==> (((#[trigger] obs@[kk].source) as int)
                        < self.nodes@.len() && (obs@[kk].target as int) < self.nodes@.len()),
                out.graph.directed == true,
                out.graph.nodes@.len() == n as int,
                forall|q: int|
                    0 <= q < n as int ==> {
                        &&& (#[trigger] out.graph.nodes@[q]).id@ == dec_rep(
                            self.nodes@[q].ext_id as int,
                        )
                        &&& out.graph.nodes@[q].metadata.signature
                            == self.nodes@[q].details.signature
                        &&& out.graph.nodes@[q].metadata.num_signatures
                            == self.nodes@[q].details.num_signatures
                        &&& out.graph.nodes@[q].metadata.fee == self.nodes@[q].details.fee
                        &&& out.graph.nodes@[q].metadata.compute == self.nodes@[q].details.compute
                        &&& out.graph.nodes@[q].metadata.depth == self.nodes@[q].depth
                    },
                out.graph.edges@.len() == kept_before(obs@, verbose, k as int),
                forall|kk: int|
                    0 <= kk < k as int && keep_obs(#[trigger] obs@[kk], verbose) ==> {
                        let j = kept_before(obs@, verbose, kk);
                        &&& 0 <= j < out.graph.edges@.len()
                        &&& out.graph.edges@[j].id@ == dec_rep(kk)
                        &&& out.graph.edges@[j].source@ == dec_rep(
                            self.nodes@[obs@[kk].source as int].ext_id as int,
                        )
                        &&& out.graph.edges@[j].target@ == dec_rep(
                            self.nodes@[obs@[kk].target as int].ext_id as int,
                        )
                    },
            decreases obs@.len() - k as int,
        {
            let o = obs[k];
            if o.resolving || verbose {
                let row = GraphiaInputEdge {
                    id: decimal_string(k),
                    source: decimal_string(self.nodes[o.source].ext_id),
                    target: decimal_string(self.nodes[o.target].ext_id),
                };
                proof {
                    assert(keep_obs(obs@[k as int], verbose));
                }
                out.graph.edges.push(row);
            }
            k += 1;
            proof {
                assert forall|kk: int|
                    0 <= kk < k as int && keep_obs(#[trigger] obs@[kk], verbose) implies {
                    let j = kept_before(obs@, verbose, kk);
                    &&& 0 <= j < out.graph.edges@.len()
                    &&& out.graph.edges@[j].id@ == dec_rep(kk)
                    &&& out.graph.edges@[j].source@ == dec_rep(
                        self.nodes@[obs@[kk].source as int].ext_id as int,
                    )
                    &&& out.graph.edges@[j].target@ == dec_rep(
                        self.nodes@[obs@[kk].target as int].ext_id as int,
                    )
                } by {
                    lemma_count_mono(
                        |x: int| 0 <= x < obs@.len() && keep_obs(obs@[x], verbose),
                        kk + 1,
                        k as int,
                    );
                }
            }
        }
        out
    }
}

} // verus!
