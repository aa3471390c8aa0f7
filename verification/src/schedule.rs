use vstd::prelude::*;
use crate::counting::{
    count_when, lemma_count_at_least_one, lemma_count_nonneg, lemma_count_same,
    lemma_count_update, lemma_count_upper, lemma_count_witness, lemma_count_zero, lemma_sum_same,
    lemma_sum_update, occ_count, lemma_occ_contains, lemma_occ_nonneg, sum_over,
};
use crate::graph::{blocks, succ_at, ConflictGraph, TxNode};

verus! {

/// One edge observation emitted while unblocking: the edge `(source,
/// target)` was walked, and `resolving` says whether it was the last
/// constraint on its target.
#[derive(Clone, Copy, PartialEq, Eq, Structural, Debug)]
pub struct EdgeObs {
    pub source: usize,
    pub target: usize,
    pub resolving: bool,
}

/// The adjacency lists of the graph, frozen as a mathematical value.
pub open spec fn edges_of(g: Seq<TxNode>) -> Seq<Seq<usize>> {
    g.map_values(|n: TxNode| n.succs@)
}

/// Forward edges over frozen adjacency lists.
pub open spec fn edges_fwd(edges: Seq<Seq<usize>>) -> bool {
    forall|p: int, j: int|
        0 <= p < edges.len() && 0 <= j < edges[p].len() ==> p < #[trigger] edges[p][j]
            < edges.len()
}

/// No duplicate entries in any adjacency list.
pub open spec fn edges_distinct(edges: Seq<Seq<usize>>) -> bool {
    forall|p: int, j: int, k: int|
        0 <= p < edges.len() && 0 <= j < k < edges[p].len() ==> #[trigger] edges[p][j]
            != #[trigger] edges[p][k]
}

/// The wave index ("depth") of node `i`: one more than the largest wave of
/// its predecessors, so 1 for a node with none. Well defined because edges
/// only point forward.
pub open spec fn wave_of(edges: Seq<Seq<usize>>, i: int) -> int
    decreases i, 1int,
{
    if i < 0 {
        1
    } else {
        1 + max_pred_wave(edges, i, i)
    }
}

/// The largest wave among predecessors of `i` that lie below `upto`
/// (0 when there are none).
pub open spec fn max_pred_wave(edges: Seq<Seq<usize>>, i: int, upto: int) -> int
    decreases upto, 0int,
{
    if upto <= 0 {
        0
    } else {
        let rest = max_pred_wave(edges, i, upto - 1);
        if 0 <= i && upto - 1 < edges.len() && edges[upto - 1].contains(i as usize) {
            let w = wave_of(edges, upto - 1);
            if w > rest {
                w
            } else {
                rest
            }
        } else {
            rest
        }
    }
}

pub proof fn lemma_max_pred_wave_nonneg(edges: Seq<Seq<usize>>, i: int, upto: int)
    ensures
        max_pred_wave(edges, i, upto) >= 0,
    decreases upto,
{
    if upto > 0 {
        lemma_max_pred_wave_nonneg(edges, i, upto - 1);
    }
}

/// Every node's wave is at least 1.
pub proof fn lemma_wave_ge_one(edges: Seq<Seq<usize>>, i: int)
    ensures
        wave_of(edges, i) >= 1,
{
    if i >= 0 {
        lemma_max_pred_wave_nonneg(edges, i, i);
    }
}

/// A predecessor's wave bounds the maximum from below.
pub proof fn lemma_max_pred_wave_ge(edges: Seq<Seq<usize>>, i: int, upto: int, p: int)
    requires
        0 <= p < upto,
        0 <= i,
        p < edges.len(),
        edges[p].contains(i as usize),
    ensures
        max_pred_wave(edges, i, upto) >= wave_of(edges, p),
    decreases upto,
{
    if p < upto - 1 {
        lemma_max_pred_wave_ge(edges, i, upto - 1, p);
    }
}

/// If every predecessor's wave is at most `bound`, so is the maximum.
pub proof fn lemma_max_pred_wave_le(edges: Seq<Seq<usize>>, i: int, upto: int, bound: int)
    requires
        0 <= bound,
        forall|p: int|
            0 <= p < upto && p < edges.len() && 0 <= i && #[trigger] edges[p].contains(i as usize)
                ==> wave_of(edges, p) <= bound,
    ensures
        max_pred_wave(edges, i, upto) <= bound,
    decreases upto,
{
    if upto > 0 {
        lemma_max_pred_wave_le(edges, i, upto - 1, bound);
    }
}

/// Along an edge the wave strictly increases: `wave(s) >= wave(p) + 1`.
pub proof fn lemma_wave_gt_pred(edges: Seq<Seq<usize>>, p: int, s: usize)
    requires
        0 <= p < edges.len(),
        edges[p].contains(s),
        p < s as int,
    ensures
        wave_of(edges, s as int) >= wave_of(edges, p) + 1,
{
    lemma_max_pred_wave_ge(edges, s as int, s as int, p);
}

/// A node's wave never exceeds its slot plus one, hence never the number of
/// nodes: the scheduler needs at most as many waves as there are nodes.
pub proof fn lemma_wave_le(edges: Seq<Seq<usize>>, i: int)
    requires
        0 <= i,
    ensures
        wave_of(edges, i) <= i + 1,
    decreases i,
{
    assert forall|p: int|
        0 <= p < i && p < edges.len() && #[trigger] edges[p].contains(i as usize) implies wave_of(
        edges,
        p,
    ) <= i by {
        lemma_wave_le(edges, p);
    }
    lemma_max_pred_wave_le(edges, i, i, i);
}

/// `p` is still an undrained predecessor of `s`.
pub open spec fn live_pred(g: Seq<TxNode>, edges: Seq<Seq<usize>>, p: int, s: usize) -> bool {
    0 <= p < edges.len() && g[p].depth == 0 && edges[p].contains(s)
}

/// How many undrained predecessors of `s` remain.
pub open spec fn live_pred_count(g: Seq<TxNode>, edges: Seq<Seq<usize>>, s: usize) -> int {
    count_when(|p: int| live_pred(g, edges, p, s), edges.len() as int)
}

/// How many of the listed slots have an edge to `s`.
pub open spec fn edge_hits(edges: Seq<Seq<usize>>, ws: Seq<usize>, s: usize) -> int
    decreases ws.len(),
{
    if ws.len() == 0 {
        0
    } else {
        (if (ws[0] as int) < edges.len() && edges[ws[0] as int].contains(s) {
            1int
        } else {
            0int
        }) + edge_hits(edges, ws.drop_first(), s)
    }
}

pub proof fn lemma_edge_hits_nonneg(edges: Seq<Seq<usize>>, ws: Seq<usize>, s: usize)
    ensures
        edge_hits(edges, ws, s) >= 0,
    decreases ws.len(),
{
    if ws.len() > 0 {
        lemma_edge_hits_nonneg(edges, ws.drop_first(), s);
    }
}

pub proof fn lemma_edge_hits_push(edges: Seq<Seq<usize>>, ws: Seq<usize>, x: usize, s: usize)
    ensures
        edge_hits(edges, ws.push(x), s) == edge_hits(edges, ws, s) + (if (x as int) < edges.len()
            && edges[x as int].contains(s) {
            1int
        } else {
            0int
        }),
    decreases ws.len(),
{
    if ws.len() == 0 {
        assert(ws.push(x)[0] == x);
        assert(ws.push(x).drop_first() =~= Seq::<usize>::empty());
        assert(edge_hits(edges, ws.push(x).drop_first(), s) == 0);
        assert(edge_hits(edges, ws, s) == 0);
    } else {
        assert(ws.push(x)[0] == ws[0]);
        assert(ws.push(x).drop_first() =~= ws.drop_first().push(x));
        lemma_edge_hits_push(edges, ws.drop_first(), x, s);
    }
}

/// A listed slot with an edge to `s` forces a positive hit count.
pub proof fn lemma_edge_hits_at_least_one(
    edges: Seq<Seq<usize>>,
    ws: Seq<usize>,
    k: int,
    s: usize,
)
    requires
        0 <= k < ws.len(),
        (ws[k] as int) < edges.len(),
        edges[ws[k] as int].contains(s),
    ensures
        edge_hits(edges, ws, s) >= 1,
    decreases ws.len(),
{
    lemma_edge_hits_nonneg(edges, ws.drop_first(), s);
    if k > 0 {
        lemma_edge_hits_at_least_one(edges, ws.drop_first(), k - 1, s);
    }
}

/// A positive hit count has a listed slot as witness.
pub proof fn lemma_edge_hits_witness(edges: Seq<Seq<usize>>, ws: Seq<usize>, s: usize) -> (k: int)
    requires
        edge_hits(edges, ws, s) >= 1,
    ensures
        0 <= k < ws.len(),
        (ws[k] as int) < edges.len(),
        edges[ws[k] as int].contains(s),
    decreases ws.len(),
{
    lemma_edge_hits_nonneg(edges, ws.drop_first(), s);
    if (ws[0] as int) < edges.len() && edges[ws[0] as int].contains(s) {
        0
    } else {
        let k = lemma_edge_hits_witness(edges, ws.drop_first(), s);
        k + 1
    }
}

/// Sum of the out-degrees of the listed slots.
pub open spec fn list_out_sum(edges: Seq<Seq<usize>>, ws: Seq<usize>) -> int
    decreases ws.len(),
{
    if ws.len() == 0 {
        0
    } else {
        (if (ws[0] as int) < edges.len() {
            edges[ws[0] as int].len() as int
        } else {
            0int
        }) + list_out_sum(edges, ws.drop_first())
    }
}

pub proof fn lemma_list_out_sum_push(edges: Seq<Seq<usize>>, ws: Seq<usize>, x: usize)
    ensures
        list_out_sum(edges, ws.push(x)) == list_out_sum(edges, ws) + (if (x as int)
            < edges.len() {
            edges[x as int].len() as int
        } else {
            0int
        }),
    decreases ws.len(),
{
    if ws.len() == 0 {
        assert(ws.push(x)[0] == x);
        assert(ws.push(x).drop_first() =~= Seq::<usize>::empty());
        assert(list_out_sum(edges, ws.push(x).drop_first()) == 0);
        assert(list_out_sum(edges, ws) == 0);
    } else {
        assert(ws.push(x)[0] == ws[0]);
        assert(ws.push(x).drop_first() =~= ws.drop_first().push(x));
        lemma_list_out_sum_push(edges, ws.drop_first(), x);
    }
}

/// The number of edges the whole graph will ever emit: the sum of every
/// node's out-degree.
pub open spec fn total_out_sum(edges: Seq<Seq<usize>>) -> int {
    sum_over(
        |p: int|
            if 0 <= p < edges.len() {
                edges[p].len() as int
            } else {
                0int
            },
        edges.len() as int,
    )
}

/// The edge `(p, s)` is the last constraint walked into `s`: every other
/// predecessor of `s` is drained strictly earlier, in wave order and then
/// in slot order.
pub open spec fn last_pred(edges: Seq<Seq<usize>>, p: int, s: usize) -> bool {
    forall|q: int|
        0 <= q < edges.len() && q != p && #[trigger] edges[q].contains(s) ==> (wave_of(edges, q)
            < wave_of(edges, p) || (wave_of(edges, q) == wave_of(edges, p) && q < p))
}

/// What the scheduler asserts of one emitted observation.
pub open spec fn obs_valid(edges: Seq<Seq<usize>>, o: EdgeObs) -> bool {
    &&& 0 <= (o.source as int) < edges.len()
    &&& edges[o.source as int].contains(o.target)
    &&& (o.target as int) < edges.len()
    &&& wave_of(edges, o.source as int) < wave_of(edges, o.target as int)
    &&& (o.resolving <==> last_pred(edges, o.source as int, o.target))
}

/// `a` is emitted strictly before `b`: its source drains in an earlier
/// wave, or at a lower slot of the same wave, or `a` is an earlier entry
/// of the same source's adjacency list. This order is total over distinct
/// edges, so a sorted observation list is fully determined by the graph.
pub open spec fn obs_before(edges: Seq<Seq<usize>>, a: EdgeObs, b: EdgeObs) -> bool {
    ||| wave_of(edges, a.source as int) < wave_of(edges, b.source as int)
    ||| (wave_of(edges, a.source as int) == wave_of(edges, b.source as int) && a.source < b.source)
    ||| (a.source == b.source && edges[a.source as int].index_of(a.target) < edges[b.source
        as int].index_of(b.target))
}

/// The observations come out in strictly increasing emission order; in
/// particular no edge is reported twice.
pub open spec fn obs_sorted(edges: Seq<Seq<usize>>, os: Seq<EdgeObs>) -> bool {
    forall|k1: int, k2: int|
        0 <= k1 < k2 < os.len() ==> obs_before(edges, #[trigger] os[k1], #[trigger] os[k2])
}

/// The observation `o` was emitted before the walk reached wave `w`,
/// source `p`, adjacency entry `k`.
pub open spec fn obs_emitted_before(
    edges: Seq<Seq<usize>>,
    o: EdgeObs,
    w: int,
    p: int,
    k: int,
) -> bool {
    ||| wave_of(edges, o.source as int) < w
    ||| (wave_of(edges, o.source as int) == w && (o.source as int) < p)
    ||| ((o.source as int) == p && edges[o.source as int].index_of(o.target) < k)
}

/// Some observation reports the `j`-th edge out of source `p`.
pub open spec fn edge_observed(edges: Seq<Seq<usize>>, os: Seq<EdgeObs>, p: int, j: int) -> bool {
    exists|k: int|
        0 <= k < os.len() && ((#[trigger] os[k]).source as int) == p && os[k].target
            == edges[p][j]
}

/// Every edge leaving source `p` already has an observation in `os`.
pub open spec fn obs_covers(edges: Seq<Seq<usize>>, os: Seq<EdgeObs>, p: int) -> bool {
    forall|j: int| 0 <= j < edges[p].len() ==> #[trigger] edge_observed(edges, os, p, j)
}

/// Appending an observation loses no coverage.
pub proof fn lemma_covers_push(edges: Seq<Seq<usize>>, os: Seq<EdgeObs>, o: EdgeObs, p: int)
    requires
        obs_covers(edges, os, p),
    ensures
        obs_covers(edges, os.push(o), p),
{
    assert forall|j: int| 0 <= j < edges[p].len() implies #[trigger] edge_observed(
        edges,
        os.push(o),
        p,
        j,
    ) by {
        assert(edge_observed(edges, os, p, j));
        let k = choose|k: int|
            0 <= k < os.len() && ((#[trigger] os[k]).source as int) == p && os[k].target
                == edges[p][j];
        assert(os.push(o)[k] == os[k]);
        assert(0 <= k < os.push(o).len() && ((os.push(o)[k]).source as int) == p && os.push(
            o,
        )[k].target == edges[p][j]);
    }
}

/// In a duplicate-free sequence, `index_of` of the `k`-th element is `k`.
pub proof fn lemma_index_of_distinct(s: Seq<usize>, k: int)
    requires
        forall|j1: int, j2: int| 0 <= j1 < j2 < s.len() ==> s[j1] != s[j2],
        0 <= k < s.len(),
    ensures
        s.index_of(s[k]) == k,
{
    assert(0 <= k < s.len() && s[k] == s[k]);
    let i = s.index_of(s[k]);
    assert(0 <= i < s.len() && s[i] == s[k]) by {
        assert(exists|j: int| 0 <= j < s.len() && s[j] == s[k]);
    }
}

/// The scheduler leaves ids, metadata and adjacency untouched.
pub open spec fn frame_ok(g0: Seq<TxNode>, g: Seq<TxNode>) -> bool {
    &&& g.len() == g0.len()
    &&& forall|i: int|
        0 <= i < g.len() ==> {
            &&& (#[trigger] g[i]).ext_id == g0[i].ext_id
            &&& g[i].details == g0[i].details
            &&& g[i].succs@ == g0[i].succs@
        }
}

/// Every `blocking` counter equals its node's number of undrained
/// predecessors, read off the frozen adjacency lists.
pub open spec fn counts_now(g: Seq<TxNode>, edges: Seq<Seq<usize>>) -> bool {
    forall|s: int|
        0 <= s < g.len() ==> (#[trigger] g[s].blocking) as int == live_pred_count(
            g,
            edges,
            s as usize,
        )
}

/// Depth fields are correct so far: a drained node carries its true wave,
/// no wave beyond `d` has run, and every undrained node belongs to a later
/// wave.
pub open spec fn depths_ok(g: Seq<TxNode>, edges: Seq<Seq<usize>>, d: int) -> bool {
    forall|i: int|
        0 <= i < g.len() ==> {
            &&& ((#[trigger] g[i].depth) != 0 ==> g[i].depth as int == wave_of(edges, i)
                && wave_of(edges, i) <= d)
            &&& (g[i].depth == 0 ==> wave_of(edges, i) > d)
        }
}

pub open spec fn obs_all_valid(edges: Seq<Seq<usize>>, os: Seq<EdgeObs>) -> bool {
    forall|k: int| 0 <= k < os.len() ==> obs_valid(edges, #[trigger] os[k])
}

/// How many nodes have been drained.
pub open spec fn drained_count(g: Seq<TxNode>) -> int {
    count_when(|p: int| 0 <= p < g.len() && g[p].depth != 0, g.len() as int)
}

/// Total out-degree of the drained nodes: the number of edge observations
/// emitted so far.
pub open spec fn drained_weight(g: Seq<TxNode>, edges: Seq<Seq<usize>>) -> int {
    sum_over(
        |p: int|
            if 0 <= p < g.len() && g[p].depth != 0 && 0 <= p < edges.len() {
                edges[p].len() as int
            } else {
                0int
            },
        g.len() as int,
    )
}

/// Some undrained node is ready: walking up a chain of undrained
/// predecessors must end, because edges only point forward.
pub proof fn lemma_ready_exists(g: Seq<TxNode>, edges: Seq<Seq<usize>>, u: int) -> (m: int)
    requires
        g.len() == edges.len(),
        edges_fwd(edges),
        counts_now(g, edges),
        0 <= u < g.len(),
        g[u].depth == 0,
    ensures
        0 <= m < g.len(),
        g[m].depth == 0,
        g[m].blocking == 0,
    decreases u,
{
    if g[u].blocking == 0 {
        u
    } else {
        assert(live_pred_count(g, edges, u as usize) >= 1);
        let q = lemma_count_witness(
            |p: int| live_pred(g, edges, p, u as usize),
            edges.len() as int,
        );
        assert(live_pred(g, edges, q, u as usize));
        let j = choose|j: int| 0 <= j < edges[q].len() && edges[q][j] == u as usize;
        assert(q < edges[q][j]);
        lemma_ready_exists(g, edges, q)
    }
}

/// The walked edge `(p, s)` is the last constraint on `s` exactly when no
/// other predecessor of `s` remains unprocessed: none is undrained, none
/// comes later in this wave, and none comes later in `p`'s own list.
pub proof fn lemma_resolving_exact(
    g: Seq<TxNode>,
    edges: Seq<Seq<usize>>,
    wave: Seq<usize>,
    idx: int,
    k: int,
    w: usize,
    p: usize,
    s: usize,
)
    requires
        g.len() == edges.len(),
        edges_fwd(edges),
        edges_distinct(edges),
        0 <= idx < wave.len(),
        p == wave[idx],
        (p as int) < g.len(),
        w >= 1,
        forall|k1: int, k2: int| 0 <= k1 < k2 < wave.len() ==> wave[k1] < wave[k2],
        forall|kk: int| 0 <= kk < wave.len() ==> (#[trigger] wave[kk] as int) < g.len(),
        forall|q: int|
            0 <= q < g.len() ==> (((#[trigger] g[q].depth) == w) <==> wave.contains(q as usize)),
        forall|q: int|
            0 <= q < g.len() && (#[trigger] g[q].depth) != 0 ==> g[q].depth as int == wave_of(
                edges,
                q,
            ) && g[q].depth <= w,
        forall|q: int|
            0 <= q < g.len() && (#[trigger] g[q].depth) == 0 ==> wave_of(edges, q) > w as int,
        0 <= k < edges[p as int].len(),
        s == edges[p as int][k],
    ensures
        (live_pred_count(g, edges, s) + edge_hits(edges, wave.skip(idx + 1), s) + occ_count(
            edges[p as int].skip(k + 1),
            s,
        ) == 0) <==> last_pred(edges, p as int, s),
{
    let n = g.len() as int;
    let pi = p as int;
    assert(wave.contains(p)) by {
        assert(wave[idx] == p);
    }
    assert(g[pi].depth == w);
    assert(wave_of(edges, pi) == w as int);
    lemma_count_nonneg(|q: int| live_pred(g, edges, q, s), edges.len() as int);
    lemma_edge_hits_nonneg(edges, wave.skip(idx + 1), s);
    lemma_occ_nonneg(edges[pi].skip(k + 1), s);
    if live_pred_count(g, edges, s) + edge_hits(edges, wave.skip(idx + 1), s) + occ_count(
        edges[pi].skip(k + 1),
        s,
    ) == 0 {
        assert forall|q: int|
            0 <= q < edges.len() && q != pi && #[trigger] edges[q].contains(s) implies (wave_of(
            edges,
            q,
        ) < wave_of(edges, pi) || (wave_of(edges, q) == wave_of(edges, pi) && q < pi)) by {
            if g[q].depth == 0 {
                assert(live_pred(g, edges, q, s));
                lemma_count_at_least_one(
                    |qq: int| live_pred(g, edges, qq, s),
                    edges.len() as int,
                    q,
                );
                assert(false);
            } else {
                if wave_of(edges, q) == w as int {
                    assert(g[q].depth as int == w as int);
                    assert(wave.contains(q as usize));
                    let kq = choose|kq: int| 0 <= kq < wave.len() && wave[kq] == q as usize;
                    if kq > idx {
                        assert(wave.skip(idx + 1)[kq - idx - 1] == wave[kq]);
                        lemma_edge_hits_at_least_one(edges, wave.skip(idx + 1), kq - idx - 1, s);
                        assert(false);
                    } else if kq == idx {
                        assert(false);
                    } else {
                        assert(wave[kq] < wave[idx]);
                    }
                } else {
                    assert(g[q].depth <= w);
                    assert(wave_of(edges, q) < w as int);
                }
            }
        }
    }
    if last_pred(edges, pi, s) {
        assert forall|q: int| 0 <= q < edges.len() implies !(#[trigger] live_pred(
            g,
            edges,
            q,
            s,
        )) by {
            if live_pred(g, edges, q, s) {
                assert(wave_of(edges, q) > w as int);
                assert(q != pi);
                assert(edges[q].contains(s));
                assert(wave_of(edges, q) < w as int || (wave_of(edges, q) == w as int && q < pi));
                assert(false);
            }
        }
        lemma_count_zero(|q: int| live_pred(g, edges, q, s), edges.len() as int);
        if edge_hits(edges, wave.skip(idx + 1), s) != 0 {
            let kk = lemma_edge_hits_witness(edges, wave.skip(idx + 1), s);
            let q = wave.skip(idx + 1)[kk];
            assert(wave[idx + 1 + kk] == q);
            assert(wave[idx] < wave[idx + 1 + kk]);
            assert(wave.contains(q));
            assert(g[q as int].depth == w);
            assert(wave_of(edges, q as int) == w as int);
            assert(q as int != pi);
            assert(edges[q as int].contains(s));
            assert(false);
        }
        if occ_count(edges[pi].skip(k + 1), s) != 0 {
            lemma_occ_contains(edges[pi].skip(k + 1), s);
            let j = choose|j: int|
                0 <= j < edges[pi].skip(k + 1).len() && #[trigger] edges[pi].skip(k + 1)[j] == s;
            assert(edges[pi][k + 1 + j] == s);
            assert(edges[pi][k] == s);
            assert(false);
        }
    }
}

impl ConflictGraph {
    /// Drain the whole graph in waves. Each wave removes every currently
    /// unblocked node in priority (slot) order and stamps it with the wave
    /// index, then walks each removed node's edges, decrementing the
    /// targets' `blocking` counters; a target reaching zero becomes eligible
    /// for the next wave and the walked edge is marked resolving. Returns
    /// every edge observation, in emission order (its position is its
    /// observation id).
    pub fn drain_waves(&mut self) -> (obs: Vec<EdgeObs>)
        requires
            crate::graph::building(*old(self)),
        ensures
            final(self).nodes@.len() == old(self).nodes@.len(),
            frame_ok(old(self).nodes@, final(self).nodes@),
            final(self).ledger == old(self).ledger,
            forall|i: int|
                0 <= i < old(self).nodes@.len() ==> {
                    &&& (#[trigger] final(self).nodes@[i].depth) as int == wave_of(
                        edges_of(old(self).nodes@),
                        i,
                    )
                    &&& 1 <= final(self).nodes@[i].depth
                    &&& final(self).nodes@[i].depth as int <= old(self).nodes@.len() as int
                    &&& final(self).nodes@[i].blocking == 0
                },
            obs@.len() == total_out_sum(edges_of(old(self).nodes@)),
            obs_all_valid(edges_of(old(self).nodes@), obs@),
            obs_sorted(edges_of(old(self).nodes@), obs@),
            forall|p: int|
                0 <= p < old(self).nodes@.len() ==> obs_covers(
                    edges_of(old(self).nodes@),
                    obs@,
                    p,
                ),
    {
        let n = self.nodes.len();
        let ghost g0 = self.nodes@;
        let ghost edges0 = edges_of(g0);
        let mut obs: Vec<EdgeObs> = Vec::new();
        let mut drained: usize = 0;
        let mut depth_ctr: usize = 0;
        proof {
            assert(edges0.len() == n as int);
            assert forall|i: int| 0 <= i < n as int implies #[trigger] edges0[i]
                == g0[i].succs@ by {}
            assert(edges_fwd(edges0)) by {
                assert forall|p: int, j: int|
                    0 <= p < edges0.len() && 0 <= j < edges0[p].len() implies p
                    < #[trigger] edges0[p][j] < edges0.len() by {
                    assert(succ_at(g0, p, j) == edges0[p][j] as int);
                }
            }
            assert(edges_distinct(edges0)) by {
                assert forall|p: int, j: int, k: int|
                    0 <= p < edges0.len() && 0 <= j < k < edges0[p].len() implies #[trigger] edges0[p][j]
                    != #[trigger] edges0[p][k] by {
                    assert(succ_at(g0, p, j) == edges0[p][j] as int);
                    assert(succ_at(g0, p, k) == edges0[p][k] as int);
                }
            }
            assert(counts_now(self.nodes@, edges0)) by {
                assert forall|s: int| 0 <= s < n as int implies (#[trigger] g0[s].blocking) as int
                    == live_pred_count(g0, edges0, s as usize) by {
                    lemma_count_same(
                        |p: int| live_pred(g0, edges0, p, s as usize),
                        |p: int| blocks(g0, p, s as usize),
                        n as int,
                    );
                }
            }
            assert(depths_ok(self.nodes@, edges0, 0)) by {
                assert forall|i: int| 0 <= i < n as int implies wave_of(edges0, i) > 0 by {
                    lemma_wave_ge_one(edges0, i);
                }
            }
            lemma_count_zero(|p: int| 0 <= p < g0.len() && g0[p].depth != 0, n as int);
            crate::counting::lemma_sum_zero(
                |p: int|
                    if 0 <= p < g0.len() && g0[p].depth != 0 && 0 <= p < edges0.len() {
                        edges0[p].len() as int
                    } else {
                        0int
                    },
                n as int,
            );
        }
        while drained < n
            invariant
                n as int == self.nodes@.len(),
                n as int == g0.len(),
                n as int == edges0.len(),
                edges0 == edges_of(g0),
                edges_fwd(edges0),
                edges_distinct(edges0),
                frame_ok(g0, self.nodes@),
                self.ledger == old(self).ledger,
                g0 == old(self).nodes@,
                counts_now(self.nodes@, edges0),
                depths_ok(self.nodes@, edges0, depth_ctr as int),
                drained as int == drained_count(self.nodes@),
                drained <= n,
                depth_ctr <= drained,
                obs@.len() == drained_weight(self.nodes@, edges0),
                obs_all_valid(edges0, obs@),
                obs_sorted(edges0, obs@),
                forall|k1: int|
                    0 <= k1 < obs@.len() ==> wave_of(edges0, (#[trigger] obs@[k1]).source as int)
                        <= depth_ctr as int,
                forall|p: int|
                    0 <= p < n as int && (#[trigger] self.nodes@[p].depth) != 0 ==> obs_covers(
                        edges0,
                        obs@,
                        p,
                    ),
            decreases n as int - drained as int,
        {
            depth_ctr = depth_ctr + 1;
            let w = depth_ctr;
            let ghost gs = self.nodes@;
            let mut wave: Vec<usize> = Vec::new();
            let mut i: usize = 0;
            proof {
                assert forall|s: int| 0 <= s < n as int implies gs[s].blocking as int
                    == live_pred_count(self.nodes@, edges0, s as usize) + edge_hits(
                    edges0,
                    wave@,
                    s as usize,
                ) by {
                    assert(edge_hits(edges0, wave@, s as usize) == 0);
                }
            }
            while i < n
                invariant
                    i <= n,
                    n as int == self.nodes@.len(),
                    n as int == g0.len(),
                    n as int == edges0.len(),
                    n as int == gs.len(),
                    w as int == depth_ctr as int,
                    w >= 1,
                    edges0 == edges_of(g0),
                    edges_fwd(edges0),
                    edges_distinct(edges0),
                    frame_ok(g0, self.nodes@),
                    self.ledger == old(self).ledger,
                    g0 == old(self).nodes@,
                    counts_now(gs, edges0),
                    depths_ok(gs, edges0, w as int - 1),
                    drained as int == drained_count(gs),
                    drained <= n,
                    depth_ctr <= drained + 1,
                    forall|p: int|
                        0 <= p < n as int ==> (#[trigger] self.nodes@[p].depth) == (if p < i as int
                            && gs[p].depth == 0 && gs[p].blocking == 0 {
                            w
                        } else {
                            gs[p].depth
                        }),
                    forall|p: int|
                        0 <= p < n as int ==> (#[trigger] self.nodes@[p].blocking)
                            == gs[p].blocking,
                    forall|k: int|
                        0 <= k < wave@.len() ==> (#[trigger] wave@[k] as int) < i as int
                            && gs[wave@[k] as int].depth == 0 && gs[wave@[k] as int].blocking == 0,
                    forall|p: int|
                        0 <= p < i as int && gs[p].depth == 0 && gs[p].blocking == 0
                            ==> wave@.contains(p as usize),
                    forall|k1: int, k2: int|
                        0 <= k1 < k2 < wave@.len() ==> wave@[k1] < wave@[k2],
                    forall|k: int|
                        0 <= k < wave@.len() ==> wave_of(edges0, #[trigger] wave@[k] as int)
                            == w as int,
                    forall|s: int|
                        0 <= s < n as int ==> (#[trigger] gs[s].blocking) as int
                            == live_pred_count(self.nodes@, edges0, s as usize) + edge_hits(
                            edges0,
                            wave@,
                            s as usize,
                        ),
                    count_when(
                        |p: int| 0 <= p < n as int && self.nodes@[p].depth != 0,
                        n as int,
                    ) == drained as int + wave@.len(),
                    drained_weight(self.nodes@, edges0) == drained_weight(gs, edges0)
                        + list_out_sum(edges0, wave@),
                    obs@.len() == drained_weight(gs, edges0),
                    obs_all_valid(edges0, obs@),
                    obs_sorted(edges0, obs@),
                    forall|k1: int|
                        0 <= k1 < obs@.len() ==> wave_of(
                            edges0,
                            (#[trigger] obs@[k1]).source as int,
                        ) < w as int,
                    forall|p: int|
                        0 <= p < n as int && (#[trigger] gs[p].depth) != 0 ==> obs_covers(
                            edges0,
                            obs@,
                            p,
                        ),
                decreases n as int - i as int,
            {
                let ready = self.nodes[i].depth == 0 && self.nodes[i].blocking == 0;
                if ready {
                    proof {
                        assert(gs[i as int].depth == 0 && gs[i as int].blocking == 0);
                        lemma_count_nonneg(
                            |p: int| live_pred(self.nodes@, edges0, p, i),
                            n as int,
                        );
                        lemma_edge_hits_nonneg(edges0, wave@, i);
                        assert(live_pred_count(self.nodes@, edges0, i) == 0);
                        assert(edge_hits(edges0, wave@, i) == 0);
                        assert forall|q: int|
                            0 <= q < i as int && q < edges0.len() && #[trigger] edges0[q].contains(
                                i,
                            ) implies wave_of(edges0, q) <= w as int - 1 by {
                            if self.nodes@[q].depth == 0 {
                                assert(live_pred(self.nodes@, edges0, q, i));
                                lemma_count_at_least_one(
                                    |p: int| live_pred(self.nodes@, edges0, p, i),
                                    n as int,
                                    q,
                                );
                                assert(false);
                            } else {
                                if gs[q].depth != 0 {
                                    assert(wave_of(edges0, q) <= w as int - 1);
                                } else {
                                    assert(q < i as int && gs[q].depth == 0 && gs[q].blocking
                                        == 0);
                                    assert(wave@.contains(q as usize));
                                    let kq = choose|kq: int|
                                        0 <= kq < wave@.len() && wave@[kq] == q as usize;
                                    lemma_edge_hits_at_least_one(edges0, wave@, kq, i);
                                    assert(false);
                                }
                            }
                        }
                        assert forall|q: int|
                            0 <= q < i as int && q < edges0.len() && 0 <= i as int
                                && #[trigger] edges0[q].contains(i) implies wave_of(edges0, q)
                            <= w as int - 1 by {}
                        lemma_max_pred_wave_le(edges0, i as int, i as int, w as int - 1);
                        assert(wave_of(edges0, i as int) <= w as int);
                        assert(wave_of(edges0, i as int) > w as int - 1);
                        assert(wave_of(edges0, i as int) == w as int);
                    }
                    let ghost nodes_pre = self.nodes@;
                    let ghost wave_pre = wave@;
                    let e = &mut self.nodes[i];
                    e.depth = w;
                    wave.push(i);
                    proof {
                        assert(self.nodes@ == nodes_pre.update(i as int, self.nodes@[i as int]));
                        assert(wave@ == wave_pre.push(i));
                        assert forall|s: int| 0 <= s < n as int implies (#[trigger] gs[s].blocking)
                            as int == live_pred_count(self.nodes@, edges0, s as usize)
                            + edge_hits(edges0, wave@, s as usize) by {
                            lemma_count_update(
                                |p: int| live_pred(self.nodes@, edges0, p, s as usize),
                                |p: int| live_pred(nodes_pre, edges0, p, s as usize),
                                n as int,
                                i as int,
                            );
                            lemma_edge_hits_push(edges0, wave_pre, i, s as usize);
                        }
                        lemma_count_update(
                            |p: int| 0 <= p < n as int && self.nodes@[p].depth != 0,
                            |p: int| 0 <= p < n as int && nodes_pre[p].depth != 0,
                            n as int,
                            i as int,
                        );
                        lemma_sum_update(
                            |p: int|
                                if 0 <= p < self.nodes@.len() && self.nodes@[p].depth != 0 && 0
                                    <= p < edges0.len() {
                                    edges0[p].len() as int
                                } else {
                                    0int
                                },
                            |p: int|
                                if 0 <= p < nodes_pre.len() && nodes_pre[p].depth != 0 && 0 <= p
                                    < edges0.len() {
                                    edges0[p].len() as int
                                } else {
                                    0int
                                },
                            n as int,
                            i as int,
                        );
                        lemma_list_out_sum_push(edges0, wave_pre, i);
                        assert forall|p: int|
                            0 <= p < (i + 1) as int && gs[p].depth == 0 && gs[p].blocking == 0
                                implies wave@.contains(p as usize) by {
                            if p < i as int {
                                crate::graph::lemma_contains_push(wave_pre, i, p as usize);
                            } else {
                                assert(wave@[wave_pre.len() as int] == i);
                            }
                        }
                    }
                }
                i += 1;
            }
            proof {
                // every undrained node belongs to a strictly later wave
                assert forall|s: int|
                    0 <= s < n as int && (#[trigger] self.nodes@[s].depth) == 0 implies wave_of(
                    edges0,
                    s,
                ) > w as int by {
                    assert(gs[s].depth == 0);
                    assert(gs[s].blocking != 0);
                    lemma_count_nonneg(
                        |p: int| live_pred(self.nodes@, edges0, p, s as usize),
                        n as int,
                    );
                    lemma_edge_hits_nonneg(edges0, wave@, s as usize);
                    if live_pred_count(self.nodes@, edges0, s as usize) >= 1 {
                        let q = lemma_count_witness(
                            |p: int| live_pred(self.nodes@, edges0, p, s as usize),
                            n as int,
                        );
                        assert(live_pred(self.nodes@, edges0, q, s as usize));
                        assert(gs[q].depth == 0);
                        assert(wave_of(edges0, q) > w as int - 1);
                        let j = choose|j: int|
                            0 <= j < edges0[q].len() && edges0[q][j] == s as usize;
                        assert(q < edges0[q][j]);
                        lemma_wave_gt_pred(edges0, q, s as usize);
                    } else {
                        assert(edge_hits(edges0, wave@, s as usize) >= 1);
                        let kk = lemma_edge_hits_witness(edges0, wave@, s as usize);
                        let q = wave@[kk];
                        assert(wave_of(edges0, q as int) == w as int);
                        let j = choose|j: int|
                            0 <= j < edges0[q as int].len() && edges0[q as int][j] == s as usize;
                        assert((q as int) < edges0[q as int][j]);
                        lemma_wave_gt_pred(edges0, q as int, s as usize);
                    }
                }
                // the wave cannot be empty while anything is undrained
                assert(exists|p: int| 0 <= p < n as int && (#[trigger] gs[p].depth) == 0) by {
                    if forall|p: int| 0 <= p < n as int ==> (#[trigger] gs[p].depth) != 0 {
                        crate::counting::lemma_count_full(
                            |p: int| 0 <= p < gs.len() && gs[p].depth != 0,
                            n as int,
                        );
                    }
                }
                let u = choose|p: int| 0 <= p < n as int && (#[trigger] gs[p].depth) == 0;
                let m = lemma_ready_exists(gs, edges0, u);
                assert(wave@.contains(m as usize));
                assert(wave@.len() >= 1) by {
                    let km = choose|km: int| 0 <= km < wave@.len() && wave@[km] == m as usize;
                }
                // wave membership is exactly depth == w
                assert forall|q: int| 0 <= q < n as int implies (((#[trigger] self.nodes@[q].depth)
                    == w) <==> wave@.contains(q as usize)) by {
                    if self.nodes@[q].depth == w {
                        if !(gs[q].depth == 0 && gs[q].blocking == 0) {
                            assert(gs[q].depth == w);
                            assert(wave_of(edges0, q) == w as int);
                            assert(wave_of(edges0, q) <= w as int - 1);
                        }
                    }
                    if wave@.contains(q as usize) {
                        let kq = choose|kq: int| 0 <= kq < wave@.len() && wave@[kq] == q as usize;
                        assert(gs[q].depth == 0 && gs[q].blocking == 0);
                    }
                }
            }
            // unblock phase
            proof {
                assert(wave@.skip(0) =~= wave@);
                assert forall|s: int| 0 <= s < n as int implies (#[trigger] self.nodes@[s].blocking)
                    as int == live_pred_count(self.nodes@, edges0, s as usize) + edge_hits(
                    edges0,
                    wave@.skip(0),
                    s as usize,
                ) by {
                    assert(self.nodes@[s].blocking == gs[s].blocking);
                }
                assert(wave@.take(0) =~= Seq::<usize>::empty());
                assert(list_out_sum(edges0, wave@.take(0)) == 0);
            }
            let mut idx: usize = 0;
            while idx < wave.len()
                invariant
                    idx <= wave@.len(),
                    n as int == self.nodes@.len(),
                    n as int == g0.len(),
                    n as int == edges0.len(),
                    n as int == gs.len(),
                    w as int == depth_ctr as int,
                    w >= 1,
                    edges0 == edges_of(g0),
                    edges_fwd(edges0),
                    edges_distinct(edges0),
                    frame_ok(g0, self.nodes@),
                    self.ledger == old(self).ledger,
                    g0 == old(self).nodes@,
                    drained as int == drained_count(gs),
                    drained <= n,
                    depth_ctr <= drained + 1,
                    wave@.len() >= 1,
                    forall|k: int|
                        0 <= k < wave@.len() ==> (#[trigger] wave@[k] as int) < n as int,
                    forall|k1: int, k2: int|
                        0 <= k1 < k2 < wave@.len() ==> wave@[k1] < wave@[k2],
                    forall|k: int|
                        0 <= k < wave@.len() ==> wave_of(edges0, #[trigger] wave@[k] as int)
                            == w as int,
                    forall|q: int|
                        0 <= q < n as int ==> (((#[trigger] self.nodes@[q].depth) == w)
                            <==> wave@.contains(q as usize)),
                    forall|q: int|
                        0 <= q < n as int && (#[trigger] self.nodes@[q].depth) != 0
                            ==> self.nodes@[q].depth as int == wave_of(edges0, q)
                            && self.nodes@[q].depth <= w,
                    forall|q: int|
                        0 <= q < n as int && (#[trigger] self.nodes@[q].depth) == 0 ==> wave_of(
                            edges0,
                            q,
                        ) > w as int,
                    forall|s: int|
                        0 <= s < n as int ==> (#[trigger] self.nodes@[s].blocking) as int
                            == live_pred_count(self.nodes@, edges0, s as usize) + edge_hits(
                            edges0,
                            wave@.skip(idx as int),
                            s as usize,
                        ),
                    count_when(
                        |p: int| 0 <= p < n as int && self.nodes@[p].depth != 0,
                        n as int,
                    ) == drained as int + wave@.len(),
                    drained_weight(self.nodes@, edges0) == drained_weight(gs, edges0)
                        + list_out_sum(edges0, wave@),
                    obs@.len() == drained_weight(gs, edges0) + list_out_sum(
                        edges0,
                        wave@.take(idx as int),
                    ),
                    obs_all_valid(edges0, obs@),
                    obs_sorted(edges0, obs@),
                    forall|k1: int|
                        0 <= k1 < obs@.len() ==> wave_of(
                            edges0,
                            (#[trigger] obs@[k1]).source as int,
                        ) <= w as int,
                    idx < wave@.len() ==> forall|k1: int|
                        0 <= k1 < obs@.len() ==> obs_emitted_before(
                            edges0,
                            #[trigger] obs@[k1],
                            w as int,
                            wave@[idx as int] as int,
                            0,
                        ),
                    forall|p: int|
                        0 <= p < n as int && (#[trigger] gs[p].depth) != 0 ==> obs_covers(
                            edges0,
                            obs@,
                            p,
                        ),
                    forall|kk: int|
                        0 <= kk < idx as int ==> obs_covers(
                            edges0,
                            obs@,
                            (#[trigger] wave@[kk]) as int,
                        ),
                decreases wave@.len() - idx as int,
            {
                let p = wave[idx];
                let ghost pi = p as int;
                proof {
                    assert(wave@.skip(idx as int)[0] == p);
                    assert(wave@.skip(idx as int).drop_first() =~= wave@.skip(idx as int + 1));
                    assert forall|s: int| 0 <= s < n as int implies (#[trigger] self.nodes@[s].blocking)
                        as int == live_pred_count(self.nodes@, edges0, s as usize) + edge_hits(
                        edges0,
                        wave@.skip(idx as int + 1),
                        s as usize,
                    ) + occ_count(edges0[pi].skip(0), s as usize) by {
                        assert(edge_hits(edges0, wave@.skip(idx as int), s as usize) == (if (
                        p as int) < edges0.len() && edges0[pi].contains(s as usize) {
                            1int
                        } else {
                            0int
                        }) + edge_hits(edges0, wave@.skip(idx as int + 1), s as usize));
                        assert(edges0[pi].skip(0) =~= edges0[pi]);
                        assert forall|j1: int, j2: int|
                            0 <= j1 < j2 < edges0[pi].len() implies edges0[pi][j1]
                            != edges0[pi][j2] by {}
                        crate::counting::lemma_occ_distinct(edges0[pi], s as usize);
                    }
                }
                let mut k: usize = 0;
                let succ_len = self.nodes[p].succs.len();
                while k < succ_len
                    invariant
                        k <= succ_len,
                        succ_len as int == edges0[pi].len(),
                        pi == p as int,
                        0 <= idx < wave@.len(),
                        p == wave@[idx as int],
                        (p as int) < n as int,
                        n as int == self.nodes@.len(),
                        n as int == g0.len(),
                        n as int == edges0.len(),
                        n as int == gs.len(),
                        w as int == depth_ctr as int,
                        w >= 1,
                        edges0 == edges_of(g0),
                        edges_fwd(edges0),
                        edges_distinct(edges0),
                        frame_ok(g0, self.nodes@),
                        self.ledger == old(self).ledger,
                        g0 == old(self).nodes@,
                        drained as int == drained_count(gs),
                        drained <= n,
                        depth_ctr <= drained + 1,
                        wave@.len() >= 1,
                        forall|kk: int|
                            0 <= kk < wave@.len() ==> (#[trigger] wave@[kk] as int) < n as int,
                        forall|k1: int, k2: int|
                            0 <= k1 < k2 < wave@.len() ==> wave@[k1] < wave@[k2],
                        forall|kk: int|
                            0 <= kk < wave@.len() ==> wave_of(edges0, #[trigger] wave@[kk] as int)
                                == w as int,
                        forall|q: int|
                            0 <= q < n as int ==> (((#[trigger] self.nodes@[q].depth) == w)
                                <==> wave@.contains(q as usize)),
                        forall|q: int|
                            0 <= q < n as int && (#[trigger] self.nodes@[q].depth) != 0
                                ==> self.nodes@[q].depth as int == wave_of(edges0, q)
                                && self.nodes@[q].depth <= w,
                        forall|q: int|
                            0 <= q < n as int && (#[trigger] self.nodes@[q].depth) == 0
                                ==> wave_of(edges0, q) > w as int,
                        forall|s: int|
                            0 <= s < n as int ==> (#[trigger] self.nodes@[s].blocking) as int
                                == live_pred_count(self.nodes@, edges0, s as usize) + edge_hits(
                                edges0,
                                wave@.skip(idx as int + 1),
                                s as usize,
                            ) + occ_count(edges0[pi].skip(k as int), s as usize),
                        count_when(
                            |p2: int| 0 <= p2 < n as int && self.nodes@[p2].depth != 0,
                            n as int,
                        ) == drained as int + wave@.len(),
                        drained_weight(self.nodes@, edges0) == drained_weight(gs, edges0)
                            + list_out_sum(edges0, wave@),
                        obs@.len() == drained_weight(gs, edges0) + list_out_sum(
                            edges0,
                            wave@.take(idx as int),
                        ) + k as int,
                        obs_all_valid(edges0, obs@),
                        obs_sorted(edges0, obs@),
                        forall|kk1: int|
                            0 <= kk1 < obs@.len() ==> wave_of(
                                edges0,
                                (#[trigger] obs@[kk1]).source as int,
                            ) <= w as int,
                        forall|kk1: int|
                            0 <= kk1 < obs@.len() ==> obs_emitted_before(
                                edges0,
                                #[trigger] obs@[kk1],
                                w as int,
                                pi,
                                k as int,
                            ),
                        forall|p2: int|
                            0 <= p2 < n as int && (#[trigger] gs[p2].depth) != 0 ==> obs_covers(
                                edges0,
                                obs@,
                                p2,
                            ),
                        forall|kk: int|
                            0 <= kk < idx as int ==> obs_covers(
                                edges0,
                                obs@,
                                (#[trigger] wave@[kk]) as int,
                            ),
                        forall|j: int|
                            0 <= j < k as int ==> #[trigger] edge_observed(edges0, obs@, pi, j),
                    decreases succ_len as int - k as int,
                {
                    let s = self.nodes[p].succs[k];
                    let ghost nodes_pre = self.nodes@;
                    proof {
                        assert(edges0[pi][k as int] == s);
                        assert((s as int) < n as int && pi < s as int) by {
                            assert(pi < edges0[pi][k as int] < edges0.len());
                        }
                        assert(edges0[pi].contains(s)) by {
                            assert(edges0[pi][k as int] == s);
                        }
                        assert(edges0[pi].skip(k as int)[0] == s);
                        assert(edges0[pi].skip(k as int).drop_first() =~= edges0[pi].skip(
                            k as int + 1,
                        ));
                        lemma_occ_nonneg(edges0[pi].skip(k as int + 1), s);
                        lemma_count_nonneg(
                            |q: int| live_pred(self.nodes@, edges0, q, s),
                            n as int,
                        );
                        lemma_edge_hits_nonneg(edges0, wave@.skip(idx as int + 1), s);
                        assert(self.nodes@[s as int].blocking >= 1);
                    }
                    let e = &mut self.nodes[s];
                    let nb = e.blocking - 1;
                    e.blocking = nb;
                    let r = nb == 0;
                    proof {
                        assert(self.nodes@ == nodes_pre.update(s as int, self.nodes@[s as int]));
                        assert forall|s2: int| 0 <= s2 < n as int implies (#[trigger] self.nodes@[s2].blocking)
                            as int == live_pred_count(self.nodes@, edges0, s2 as usize)
                            + edge_hits(edges0, wave@.skip(idx as int + 1), s2 as usize)
                            + occ_count(edges0[pi].skip(k as int + 1), s2 as usize) by {
                            lemma_count_same(
                                |q: int| live_pred(self.nodes@, edges0, q, s2 as usize),
                                |q: int| live_pred(nodes_pre, edges0, q, s2 as usize),
                                n as int,
                            );
                            assert(edges0[pi].skip(k as int)[0] == s);
                            assert(edges0[pi].skip(k as int).drop_first() =~= edges0[pi].skip(
                                k as int + 1,
                            ));
                            if s2 == s as int {
                            } else {
                                assert(occ_count(edges0[pi].skip(k as int), s2 as usize)
                                    == occ_count(edges0[pi].skip(k as int + 1), s2 as usize));
                            }
                        }
                        lemma_count_same(
                            |p2: int| 0 <= p2 < n as int && self.nodes@[p2].depth != 0,
                            |p2: int| 0 <= p2 < n as int && nodes_pre[p2].depth != 0,
                            n as int,
                        );
                        lemma_sum_same(
                            |p2: int|
                                if 0 <= p2 < self.nodes@.len() && self.nodes@[p2].depth != 0 && 0
                                    <= p2 < edges0.len() {
                                    edges0[p2].len() as int
                                } else {
                                    0int
                                },
                            |p2: int|
                                if 0 <= p2 < nodes_pre.len() && nodes_pre[p2].depth != 0 && 0 <= p2
                                    < edges0.len() {
                                    edges0[p2].len() as int
                                } else {
                                    0int
                                },
                            n as int,
                        );
                        lemma_resolving_exact(
                            self.nodes@,
                            edges0,
                            wave@,
                            idx as int,
                            k as int,
                            w,
                            p,
                            s,
                        );
                        lemma_wave_gt_pred(edges0, pi, s);
                        assert(wave_of(edges0, pi) == w as int);
                        lemma_count_nonneg(
                            |q: int| live_pred(self.nodes@, edges0, q, s),
                            n as int,
                        );
                        lemma_edge_hits_nonneg(edges0, wave@.skip(idx as int + 1), s);
                        lemma_occ_nonneg(edges0[pi].skip(k as int + 1), s);
                        assert(self.nodes@[s as int].blocking == nb);
                        assert(nb as int == live_pred_count(self.nodes@, edges0, s) + edge_hits(
                            edges0,
                            wave@.skip(idx as int + 1),
                            s,
                        ) + occ_count(edges0[pi].skip(k as int + 1), s));
                        assert(r <==> (live_pred_count(self.nodes@, edges0, s) + edge_hits(
                            edges0,
                            wave@.skip(idx as int + 1),
                            s,
                        ) + occ_count(edges0[pi].skip(k as int + 1), s) == 0));
                        assert(r <==> last_pred(edges0, p as int, s));
                        assert(wave_of(edges0, p as int) < wave_of(edges0, s as int));
                        assert(obs_valid(
                            edges0,
                            EdgeObs { source: p, target: s, resolving: r },
                        ));
                    }
                    let ghost obs_pre = obs@;
                    obs.push(EdgeObs { source: p, target: s, resolving: r });
                    proof {
                        let newo = EdgeObs { source: p, target: s, resolving: r };
                        assert forall|j1: int, j2: int|
                            0 <= j1 < j2 < edges0[pi].len() implies edges0[pi][j1]
                            != edges0[pi][j2] by {}
                        lemma_index_of_distinct(edges0[pi], k as int);
                        assert(edges0[pi].index_of(s) == k as int);
                        assert forall|k1: int| 0 <= k1 < obs_pre.len() implies obs_before(
                            edges0,
                            #[trigger] obs@[k1],
                            newo,
                        ) by {
                            assert(obs@[k1] == obs_pre[k1]);
                            assert(obs_emitted_before(edges0, obs_pre[k1], w as int, pi, k as int));
                            assert(wave_of(edges0, pi) == w as int);
                        }
                        assert forall|k1: int, k2: int|
                            0 <= k1 < k2 < obs@.len() implies obs_before(
                            edges0,
                            #[trigger] obs@[k1],
                            #[trigger] obs@[k2],
                        ) by {
                            if k2 == obs@.len() - 1 {
                                assert(obs@[k2] == newo);
                            } else {
                                assert(obs@[k1] == obs_pre[k1] && obs@[k2] == obs_pre[k2]);
                            }
                        }
                        assert forall|p2: int|
                            0 <= p2 < n as int && (#[trigger] gs[p2].depth) != 0 implies obs_covers(
                            edges0,
                            obs@,
                            p2,
                        ) by {
                            lemma_covers_push(edges0, obs_pre, newo, p2);
                        }
                        assert forall|kk: int| 0 <= kk < idx as int implies obs_covers(
                            edges0,
                            obs@,
                            (#[trigger] wave@[kk]) as int,
                        ) by {
                            lemma_covers_push(edges0, obs_pre, newo, wave@[kk] as int);
                        }
                        assert forall|j: int|
                            0 <= j < k as int + 1 implies #[trigger] edge_observed(
                            edges0,
                            obs@,
                            pi,
                            j,
                        ) by {
                            if j < k as int {
                                assert(edge_observed(edges0, obs_pre, pi, j));
                                let kx = choose|kx: int|
                                    0 <= kx < obs_pre.len() && ((#[trigger] obs_pre[kx]).source
                                        as int) == pi && obs_pre[kx].target == edges0[pi][j];
                                assert(obs@[kx] == obs_pre[kx]);
                                assert(0 <= kx < obs@.len() && ((obs@[kx]).source as int) == pi
                                    && obs@[kx].target == edges0[pi][j]);
                            } else {
                                assert(obs@[obs@.len() - 1] == newo);
                                assert(((obs@[obs@.len() - 1]).source as int) == pi
                                    && obs@[obs@.len() - 1].target == edges0[pi][j]);
                            }
                        }
                    }
                    k += 1;
                }
                idx += 1;
                proof {
                    assert(edges0[pi].skip(succ_len as int) =~= Seq::<usize>::empty());
                    assert forall|s: int| 0 <= s < n as int implies (#[trigger] self.nodes@[s].blocking)
                        as int == live_pred_count(self.nodes@, edges0, s as usize) + edge_hits(
                        edges0,
                        wave@.skip(idx as int),
                        s as usize,
                    ) by {
                        assert(occ_count(edges0[pi].skip(succ_len as int), s as usize) == 0);
                    }
                    assert(wave@.take(idx as int) =~= wave@.take(idx as int - 1).push(p));
                    lemma_list_out_sum_push(edges0, wave@.take(idx as int - 1), p);
                    if (idx as int) < wave@.len() {
                        assert(wave@[idx as int - 1] < wave@[idx as int]);
                        assert forall|k1: int| 0 <= k1 < obs@.len() implies obs_emitted_before(
                            edges0,
                            #[trigger] obs@[k1],
                            w as int,
                            wave@[idx as int] as int,
                            0,
                        ) by {
                            assert(obs_emitted_before(edges0, obs@[k1], w as int, pi, succ_len as int));
                            assert(wave_of(edges0, pi) == w as int);
                        }
                    }
                    assert forall|kk: int| 0 <= kk < idx as int implies obs_covers(
                        edges0,
                        obs@,
                        (#[trigger] wave@[kk]) as int,
                    ) by {
                        if kk == idx as int - 1 {
                            assert(wave@[kk] == p);
                            assert forall|j: int|
                                0 <= j < edges0[pi].len() implies #[trigger] edge_observed(
                                edges0,
                                obs@,
                                pi,
                                j,
                            ) by {}
                            assert(obs_covers(edges0, obs@, pi));
                        }
                    }
                }
            }
            proof {
                assert(wave@.skip(wave@.len() as int) =~= Seq::<usize>::empty());
                assert forall|s: int| 0 <= s < n as int implies (#[trigger] self.nodes@[s].blocking)
                    as int == live_pred_count(self.nodes@, edges0, s as usize) by {
                    assert(edge_hits(edges0, wave@.skip(wave@.len() as int), s as usize) == 0);
                }
                assert(wave@.take(wave@.len() as int) =~= wave@);
                lemma_count_upper(
                    |p: int| 0 <= p < n as int && self.nodes@[p].depth != 0,
                    n as int,
                );
                assert forall|p: int|
                    0 <= p < n as int && (#[trigger] self.nodes@[p].depth) != 0 implies obs_covers(
                    edges0,
                    obs@,
                    p,
                ) by {
                    if gs[p].depth == 0 {
                        assert(self.nodes@[p].depth == w);
                        assert(wave@.contains(p as usize));
                        let kk = choose|kk: int| 0 <= kk < wave@.len() && wave@[kk] == p as usize;
                        assert(obs_covers(edges0, obs@, wave@[kk] as int));
                    }
                }
            }
            drained = drained + wave.len();
        }
        proof {
            assert forall|i: int| 0 <= i < n as int implies (#[trigger] self.nodes@[i].depth)
                != 0 by {
                if self.nodes@[i].depth == 0 {
                    crate::counting::lemma_count_missing(
                        |p: int| 0 <= p < n as int && self.nodes@[p].depth != 0,
                        n as int,
                        i,
                    );
                }
            }
            assert forall|i: int| 0 <= i < n as int implies 1 <= wave_of(edges0, i) && wave_of(
                edges0,
                i,
            ) <= n as int by {
                lemma_wave_ge_one(edges0, i);
                lemma_wave_le(edges0, i);
            }
            assert forall|s: int| 0 <= s < n as int implies (#[trigger] self.nodes@[s].blocking)
                == 0 by {
                assert forall|q: int| 0 <= q < n as int implies !(#[trigger] live_pred(
                    self.nodes@,
                    edges0,
                    q,
                    s as usize,
                )) by {}
                lemma_count_zero(
                    |q: int| live_pred(self.nodes@, edges0, q, s as usize),
                    n as int,
                );
            }
            lemma_sum_same(
                |p: int|
                    if 0 <= p < self.nodes@.len() && self.nodes@[p].depth != 0 && 0 <= p
                        < edges0.len() {
                        edges0[p].len() as int
                    } else {
                        0int
                    },
                |p: int|
                    if 0 <= p < edges0.len() {
                        edges0[p].len() as int
                    } else {
                        0int
                    },
                n as int,
            );
            assert forall|p: int| 0 <= p < n as int implies obs_covers(
                edges_of(old(self).nodes@),
                obs@,
                p,
            ) by {
                assert(self.nodes@[p].depth != 0);
                assert(obs_covers(edges0, obs@, p));
                assert(edges_of(old(self).nodes@) == edges0);
            }
        }
        obs
    }
}

} // verus!
