use vstd::prelude::*;
use crate::access::{Access, AccessKind};
use crate::counting::{
    count_when, lemma_count_same, lemma_count_update, lemma_count_upper, lemma_count_zero,
};
use crate::ledger::{
    entry_blockers, entry_of, ids_below, ledger_recorded, lemma_recorded_ids_below, AccessLedger,
    EntryModel,
};

verus! {

/// Export-only description of a transaction; never read by scheduling.
#[derive(Clone, Debug)]
pub struct TxDetails {
    pub signature: String,
    pub num_signatures: usize,
    pub fee: u64,
    pub compute: u64,
}

/// One transaction in the conflict graph. Its slot (position in the node
/// arena) is its scheduling id and priority key: slots are assigned in
/// insertion order, and a lower slot is drained first within a wave.
pub struct TxNode {
    /// The caller's own id for this transaction (for example its index in
    /// the block, counting transactions the graph never saw).
    pub ext_id: usize,
    pub details: TxDetails,
    /// Slots of the transactions this node blocks.
    pub succs: Vec<usize>,
    /// Number of unresolved predecessor edges.
    pub blocking: usize,
    /// 0 while the node is undrained; its 1-based wave index afterwards.
    pub depth: usize,
}

/// The conflict graph: a node arena plus the resource access ledger the
/// builder consults while inserting transactions.
pub struct ConflictGraph {
    pub nodes: Vec<TxNode>,
    pub ledger: AccessLedger,
}

/// The `j`-th successor slot of node `p`, as a mathematical integer.
pub open spec fn succ_at(g: Seq<TxNode>, p: int, j: int) -> int {
    g[p].succs@[j] as int
}

/// Edges only point from an earlier-inserted node to a later one, within
/// bounds. This is what makes the graph a DAG by construction.
pub open spec fn edges_ok(g: Seq<TxNode>) -> bool {
    forall|p: int, j: int|
        0 <= p < g.len() && 0 <= j < g[p].succs@.len() ==> p < #[trigger] succ_at(g, p, j)
            < g.len()
}

/// No predecessor records the same edge twice.
pub open spec fn succs_distinct(g: Seq<TxNode>) -> bool {
    forall|p: int, j: int, k: int|
        0 <= p < g.len() && 0 <= j < k < g[p].succs@.len() ==> #[trigger] succ_at(g, p, j)
            != #[trigger] succ_at(g, p, k)
}

/// Node `p` is an undrained predecessor of slot `s`.
pub open spec fn blocks(g: Seq<TxNode>, p: int, s: usize) -> bool {
    0 <= p < g.len() && g[p].depth == 0 && g[p].succs@.contains(s)
}

/// How many undrained predecessors slot `s` still has.
pub open spec fn pending_pred_count(g: Seq<TxNode>, s: usize) -> int {
    count_when(|p: int| blocks(g, p, s), g.len() as int)
}

/// Every `blocking` counter equals the number of undrained predecessors of
/// its node. (A drained node has none left, so its counter is zero.)
pub open spec fn counts_ok(g: Seq<TxNode>) -> bool {
    forall|s: int| 0 <= s < g.len() ==> (#[trigger] g[s].blocking) as int == pending_pred_count(
        g,
        s as usize,
    )
}

/// Construction-phase well-formedness: sound edges, no duplicate edges,
/// nothing drained yet, counters consistent, and the ledger only mentions
/// transactions that exist.
pub open spec fn building(c: ConflictGraph) -> bool {
    &&& edges_ok(c.nodes@)
    &&& succs_distinct(c.nodes@)
    &&& counts_ok(c.nodes@)
    &&& forall|i: int| 0 <= i < c.nodes@.len() ==> (#[trigger] c.nodes@[i].depth) == 0
    &&& ids_below(c.ledger@, c.nodes@.len() as int)
}

/// Pushing onto a sequence adds exactly one possible member.
pub proof fn lemma_contains_push(s: Seq<usize>, x: usize, y: usize)
    ensures
        s.push(x).contains(y) <==> (s.contains(y) || x == y),
{
    if s.contains(y) {
        let j = choose|j: int| 0 <= j < s.len() && s[j] == y;
        assert(s.push(x)[j] == y);
    }
    assert(s.push(x)[s.len() as int] == x);
    if s.push(x).contains(y) && x != y {
        let j = choose|j: int| 0 <= j < s.push(x).len() && s.push(x)[j] == y;
        if j < s.len() {
            assert(s[j] == y);
        }
    }
}

/// The ledger after one transaction records all its accesses in order.
pub open spec fn ledger_after_txn(m: Seq<EntryModel>, acc: Seq<Access>, txn: usize) -> Seq<
    EntryModel,
>
    decreases acc.len(),
{
    if acc.len() == 0 {
        m
    } else {
        ledger_after_txn(
            ledger_recorded(m, acc[0].key as int, acc[0].kind, txn),
            acc.drop_first(),
            txn,
        )
    }
}

/// Whether `p` appears among the blockers returned while `txn` records the
/// accesses `acc` against a ledger whose state is `m`: the union, over the
/// accesses in order, of the per-access blocker sets.
pub open spec fn is_blocker(m: Seq<EntryModel>, acc: Seq<Access>, txn: usize, p: usize) -> bool
    decreases acc.len(),
{
    if acc.len() == 0 {
        false
    } else {
        entry_blockers(entry_of(m, acc[0].key as int), acc[0].kind).contains(p) || is_blocker(
            ledger_recorded(m, acc[0].key as int, acc[0].kind, txn),
            acc.drop_first(),
            txn,
            p,
        )
    }
}

/// Folding one more access onto the end of a transaction's access list.
pub proof fn lemma_txn_fold_snoc(m: Seq<EntryModel>, acc: Seq<Access>, x: Access, txn: usize)
    ensures
        ledger_after_txn(m, acc.push(x), txn) == ledger_recorded(
            ledger_after_txn(m, acc, txn),
            x.key as int,
            x.kind,
            txn,
        ),
        forall|p: usize|
            #[trigger] is_blocker(m, acc.push(x), txn, p) <==> (is_blocker(m, acc, txn, p)
                || entry_blockers(
                entry_of(ledger_after_txn(m, acc, txn), x.key as int),
                x.kind,
            ).contains(p)),
    decreases acc.len(),
{
    if acc.len() == 0 {
        let m1 = ledger_recorded(m, x.key as int, x.kind, txn);
        assert(acc.push(x)[0] == x);
        assert(acc.push(x).drop_first() =~= Seq::<Access>::empty());
        assert(ledger_after_txn(m1, acc.push(x).drop_first(), txn) == m1);
        assert(ledger_after_txn(m, acc, txn) == m);
        assert forall|p: usize| #[trigger] is_blocker(m, acc.push(x), txn, p) <==> (is_blocker(
            m,
            acc,
            txn,
            p,
        ) || entry_blockers(
            entry_of(ledger_after_txn(m, acc, txn), x.key as int),
            x.kind,
        ).contains(p)) by {
            assert(!is_blocker(m1, acc.push(x).drop_first(), txn, p));
            assert(!is_blocker(m, acc, txn, p));
        }
    } else {
        let m1 = ledger_recorded(m, acc[0].key as int, acc[0].kind, txn);
        assert(acc.push(x)[0] == acc[0]);
        assert(acc.push(x).drop_first() =~= acc.drop_first().push(x));
        lemma_txn_fold_snoc(m1, acc.drop_first(), x, txn);
        assert(ledger_after_txn(m, acc.push(x), txn) == ledger_after_txn(
            m1,
            acc.drop_first().push(x),
            txn,
        ));
        assert(ledger_after_txn(m, acc, txn) == ledger_after_txn(m1, acc.drop_first(), txn));
        assert forall|p: usize| #[trigger] is_blocker(m, acc.push(x), txn, p) <==> (is_blocker(
            m,
            acc,
            txn,
            p,
        ) || entry_blockers(
            entry_of(ledger_after_txn(m, acc, txn), x.key as int),
            x.kind,
        ).contains(p)) by {
            assert(is_blocker(m, acc.push(x), txn, p) == (entry_blockers(
                entry_of(m, acc[0].key as int),
                acc[0].kind,
            ).contains(p) || is_blocker(m1, acc.drop_first().push(x), txn, p)));
            assert(is_blocker(m, acc, txn, p) == (entry_blockers(
                entry_of(m, acc[0].key as int),
                acc[0].kind,
            ).contains(p) || is_blocker(m1, acc.drop_first(), txn, p)));
        }
    }
}

/// A transaction records no id beyond its own, and leaves none behind.
pub proof fn lemma_txn_fold_ids_below(m: Seq<EntryModel>, acc: Seq<Access>, txn: usize, n: int)
    requires
        ids_below(m, n),
        txn < n,
    ensures
        ids_below(ledger_after_txn(m, acc, txn), n),
        forall|p: usize| #[trigger] is_blocker(m, acc, txn, p) ==> p < n,
    decreases acc.len(),
{
    if acc.len() == 0 {
    } else {
        let key = acc[0].key as int;
        let kind = acc[0].kind;
        let m1 = ledger_recorded(m, key, kind, txn);
        lemma_recorded_ids_below(m, key, kind, txn, n);
        lemma_txn_fold_ids_below(m1, acc.drop_first(), txn, n);
        assert forall|p: usize| #[trigger] is_blocker(m, acc, txn, p) implies p < n by {
            assert(is_blocker(m, acc, txn, p) == (entry_blockers(entry_of(m, key), kind).contains(
                p,
            ) || is_blocker(m1, acc.drop_first(), txn, p)));
            if entry_blockers(entry_of(m, key), kind).contains(p) {
                let j = choose|j: int|
                    0 <= j < entry_blockers(entry_of(m, key), kind).len() && entry_blockers(
                        entry_of(m, key),
                        kind,
                    )[j] == p;
                assert(entry_blockers(entry_of(m, key), kind)[j] < n);
            }
        }
    }
}

/// Appending one node, and one edge from every already-inserted node that
/// `seen` marks, preserves the graph's well-formedness; the new node's
/// `blocking` counter is exactly the number of marked nodes.
proof fn lemma_insert_shape(g0: Seq<TxNode>, g1: Seq<TxNode>, seen: Seq<bool>, slot: usize)
    requires
        g0.len() == slot as int,
        g1.len() == slot as int + 1,
        seen.len() == slot as int,
        edges_ok(g0),
        succs_distinct(g0),
        counts_ok(g0),
        forall|q: int| 0 <= q < g0.len() ==> (#[trigger] g0[q].depth) == 0,
        forall|q: int| 0 <= q < g1.len() ==> (#[trigger] g1[q].depth) == 0,
        forall|p: int|
            0 <= p < slot as int ==> (#[trigger] g1[p].succs@) == if seen[p] {
                g0[p].succs@.push(slot)
            } else {
                g0[p].succs@
            },
        forall|p: int| 0 <= p < slot as int ==> (#[trigger] g1[p].blocking) == g0[p].blocking,
        g1[slot as int].succs@ == Seq::<usize>::empty(),
        g1[slot as int].blocking as int == count_when(
            |p: int| 0 <= p < slot as int && seen[p],
            slot as int,
        ),
    ensures
        edges_ok(g1),
        succs_distinct(g1),
        counts_ok(g1),
{
    let n0 = slot as int;
    assert forall|p: int, jj: int|
        0 <= p < g1.len() && 0 <= jj < g1[p].succs@.len() implies p < #[trigger] succ_at(g1, p, jj)
        < g1.len() by {
        if p < n0 {
            if jj < g0[p].succs@.len() {
                assert(succ_at(g1, p, jj) == succ_at(g0, p, jj));
            } else {
                assert(seen[p]);
                assert(succ_at(g1, p, jj) == slot as int);
            }
        }
    }
    assert forall|p: int, jj: int, kk: int|
        0 <= p < g1.len() && 0 <= jj < kk < g1[p].succs@.len() implies #[trigger] succ_at(
        g1,
        p,
        jj,
    ) != #[trigger] succ_at(g1, p, kk) by {
        if p < n0 {
            if kk < g0[p].succs@.len() {
                assert(succ_at(g1, p, jj) == succ_at(g0, p, jj));
                assert(succ_at(g1, p, kk) == succ_at(g0, p, kk));
            } else {
                assert(seen[p]);
                assert(succ_at(g1, p, kk) == slot as int);
                assert(succ_at(g1, p, jj) == succ_at(g0, p, jj));
                assert(succ_at(g0, p, jj) < g0.len());
            }
        }
    }
    assert forall|s: int| 0 <= s < g1.len() implies (#[trigger] g1[s].blocking) as int
        == pending_pred_count(g1, s as usize) by {
        assert(!blocks(g1, n0, s as usize)) by {
            if g1[n0].succs@.contains(s as usize) {
                let jj = choose|jj: int|
                    0 <= jj < g1[n0].succs@.len() && g1[n0].succs@[jj] == s as usize;
            }
        }
        if s < n0 {
            assert forall|p: int| 0 <= p < n0 implies (#[trigger] blocks(g1, p, s as usize))
                == blocks(g0, p, s as usize) by {
                if seen[p] {
                    lemma_contains_push(g0[p].succs@, slot, s as usize);
                }
            }
            lemma_count_same(
                |p: int| blocks(g1, p, s as usize),
                |p: int| blocks(g0, p, s as usize),
                n0,
            );
            assert(count_when(|p: int| blocks(g1, p, s as usize), n0 + 1) == count_when(
                |p: int| blocks(g1, p, s as usize),
                n0,
            ));
            assert(count_when(|p: int| blocks(g0, p, s as usize), n0 + 1) == count_when(
                |p: int| blocks(g0, p, s as usize),
                n0,
            ));
            assert(pending_pred_count(g0, s as usize) == g0[s].blocking as int);
        } else {
            assert(s == n0);
            assert forall|p: int| 0 <= p < n0 implies (#[trigger] blocks(g1, p, slot)) == (0 <= p
                < n0 && seen[p]) by {
                if seen[p] {
                    lemma_contains_push(g0[p].succs@, slot, slot);
                } else {
                    if g1[p].succs@.contains(slot) {
                        let jj = choose|jj: int|
                            0 <= jj < g0[p].succs@.len() && g0[p].succs@[jj] == slot;
                        assert(succ_at(g0, p, jj) < g0.len());
                    }
                }
            }
            lemma_count_same(|p: int| blocks(g1, p, slot), |p: int| 0 <= p < n0 && seen[p], n0);
            assert(count_when(|p: int| blocks(g1, p, slot), n0 + 1) == count_when(
                |p: int| blocks(g1, p, slot),
                n0,
            ));
            assert(s as usize == slot);
        }
    }
}

impl ConflictGraph {
    /// An empty graph with a fresh ledger.
    pub fn new() -> (r: Self)
        ensures
            building(r),
            r.nodes@.len() == 0,
            r.ledger@ == Seq::<EntryModel>::empty(),
    {
        let r = ConflictGraph { nodes: Vec::new(), ledger: AccessLedger::new() };
        r
    }

    /// Insert the next transaction: record each of its accesses against the
    /// ledger, draw one blocking edge from every distinct already-inserted
    /// blocker, and give the new node a `blocking` count that equals the
    /// number of those edges (a transaction never blocks itself, and a
    /// blocker reported by several accesses is counted once).
    pub fn insert_transaction(&mut self, ext_id: usize, details: TxDetails, accesses: &Vec<Access>)
        requires
            building(*old(self)),
        ensures
            building(*final(self)),
            final(self).nodes@.len() == old(self).nodes@.len() + 1,
            final(self).nodes@.last().ext_id == ext_id,
            final(self).nodes@.last().details == details,
            final(self).nodes@.last().succs@ == Seq::<usize>::empty(),
            final(self).nodes@.last().depth == 0,
            final(self).ledger@ == ledger_after_txn(
                old(self).ledger@,
                accesses@,
                old(self).nodes@.len() as usize,
            ),
            forall|p: int|
                0 <= p < old(self).nodes@.len() ==> (#[trigger] final(self).nodes@[p].succs@)
                    == if is_blocker(
                    old(self).ledger@,
                    accesses@,
                    old(self).nodes@.len() as usize,
                    p as usize,
                ) {
                    old(self).nodes@[p].succs@.push(old(self).nodes@.len() as usize)
                } else {
                    old(self).nodes@[p].succs@
                },
            forall|p: int|
                0 <= p < old(self).nodes@.len() ==> {
                    &&& (#[trigger] final(self).nodes@[p]).ext_id == old(self).nodes@[p].ext_id
                    &&& final(self).nodes@[p].details == old(self).nodes@[p].details
                    &&& final(self).nodes@[p].blocking == old(self).nodes@[p].blocking
                    &&& final(self).nodes@[p].depth == 0
                },
    {
        let slot = self.nodes.len();
        let ghost n0 = slot as int;
        let ghost g0 = self.nodes@;
        let ghost m0 = self.ledger@;
        let mut seen: Vec<bool> = Vec::new();
        let mut i: usize = 0;
        while i < slot
            invariant
                i <= slot,
                seen@.len() == i as int,
                forall|p: int| 0 <= p < i ==> !(#[trigger] seen@[p]),
            decreases slot - i,
        {
            seen.push(false);
            i += 1;
        }
        let mut blocking: usize = 0;
        let mut ai: usize = 0;
        proof {
            assert(accesses@.take(0) =~= Seq::<Access>::empty());
            lemma_count_zero(|p: int| 0 <= p < n0 && seen@[p], n0);
        }
        while ai < accesses.len()
            invariant
                ai <= accesses@.len(),
                self.nodes@.len() == n0,
                n0 == g0.len(),
                seen@.len() == n0,
                slot as int == n0,
                edges_ok(g0),
                succs_distinct(g0),
                counts_ok(g0),
                forall|q: int| 0 <= q < g0.len() ==> (#[trigger] g0[q].depth) == 0,
                self.ledger@ == ledger_after_txn(m0, accesses@.take(ai as int), slot),
                ids_below(self.ledger@, n0 + 1),
                ids_below(m0, n0),
                forall|p: int|
                    0 <= p < n0 ==> (#[trigger] seen@[p] <==> is_blocker(
                        m0,
                        accesses@.take(ai as int),
                        slot,
                        p as usize,
                    )),
                forall|p: int|
                    0 <= p < n0 ==> (#[trigger] self.nodes@[p].succs@) == if seen@[p] {
                        g0[p].succs@.push(slot)
                    } else {
                        g0[p].succs@
                    },
                forall|p: int|
                    0 <= p < n0 ==> {
                        &&& (#[trigger] self.nodes@[p]).ext_id == g0[p].ext_id
                        &&& self.nodes@[p].details == g0[p].details
                        &&& self.nodes@[p].blocking == g0[p].blocking
                        &&& self.nodes@[p].depth == 0
                    },
                blocking as int == count_when(|p: int| 0 <= p < n0 && seen@[p], n0),
            decreases accesses@.len() - ai,
        {
            let a = accesses[ai];
            let ghost l_pre = self.ledger@;
            let bl = self.ledger.record(a.key, a.kind, slot);
            proof {
                lemma_recorded_ids_below(l_pre, a.key as int, a.kind, slot, n0 + 1);
                assert(bl@.take(0) =~= Seq::<usize>::empty());
            }
            let mut j: usize = 0;
            while j < bl.len()
                invariant
                    j <= bl@.len(),
                    self.nodes@.len() == n0,
                    n0 == g0.len(),
                    seen@.len() == n0,
                    slot as int == n0,
                    edges_ok(g0),
                    succs_distinct(g0),
                    counts_ok(g0),
                    forall|q: int| 0 <= q < g0.len() ==> (#[trigger] g0[q].depth) == 0,
                    self.ledger@ == ledger_recorded(l_pre, a.key as int, a.kind, slot),
                    bl@ == entry_blockers(entry_of(l_pre, a.key as int), a.kind),
                    forall|p: int|
                        0 <= p < n0 ==> (#[trigger] seen@[p] <==> (is_blocker(
                            m0,
                            accesses@.take(ai as int),
                            slot,
                            p as usize,
                        ) || bl@.take(j as int).contains(p as usize))),
                    forall|p: int|
                        0 <= p < n0 ==> (#[trigger] self.nodes@[p].succs@) == if seen@[p] {
                            g0[p].succs@.push(slot)
                        } else {
                            g0[p].succs@
                        },
                    forall|p: int|
                        0 <= p < n0 ==> {
                            &&& (#[trigger] self.nodes@[p]).ext_id == g0[p].ext_id
                            &&& self.nodes@[p].details == g0[p].details
                            &&& self.nodes@[p].blocking == g0[p].blocking
                            &&& self.nodes@[p].depth == 0
                        },
                    blocking as int == count_when(|p: int| 0 <= p < n0 && seen@[p], n0),
                decreases bl@.len() - j,
            {
                let b = bl[j];
                let ghost seen_pre = seen@;
                if b < slot && !seen[b] {
                    seen[b] = true;
                    let e = &mut self.nodes[b];
                    e.succs.push(slot);
                    proof {
                        lemma_count_update(
                            |p: int| 0 <= p < n0 && seen@[p],
                            |p: int| 0 <= p < n0 && seen_pre[p],
                            n0,
                            b as int,
                        );
                        lemma_count_upper(|p: int| 0 <= p < n0 && seen@[p], n0);
                    }
                    blocking = blocking + 1;
                }
                j += 1;
                proof {
                    assert(bl@.take(j as int) =~= bl@.take(j - 1).push(bl@[j - 1]));
                    assert forall|p: int| 0 <= p < n0 implies (#[trigger] seen@[p] <==> (is_blocker(
                        m0,
                        accesses@.take(ai as int),
                        slot,
                        p as usize,
                    ) || bl@.take(j as int).contains(p as usize))) by {
                        lemma_contains_push(bl@.take(j - 1), bl@[j - 1], p as usize);
                        assert(seen_pre[p] <==> (is_blocker(
                            m0,
                            accesses@.take(ai as int),
                            slot,
                            p as usize,
                        ) || bl@.take(j - 1).contains(p as usize)));
                    }
                }
            }
            ai += 1;
            proof {
                assert(bl@.take(bl@.len() as int) =~= bl@);
                assert(accesses@.take(ai as int) =~= accesses@.take(ai - 1).push(
                    accesses@[ai - 1],
                ));
                lemma_txn_fold_snoc(m0, accesses@.take(ai - 1), accesses@[ai - 1], slot);
            }
        }
        proof {
            assert(accesses@.take(accesses@.len() as int) =~= accesses@);
        }
        let new_node = TxNode { ext_id, details, succs: Vec::new(), blocking, depth: 0 };
        self.nodes.push(new_node);
        proof {
            lemma_txn_fold_ids_below(m0, accesses@, slot, n0 + 1);
            lemma_insert_shape(g0, self.nodes@, seen@, slot);
        }
    }
}

} // verus!
