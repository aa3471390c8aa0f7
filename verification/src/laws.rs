use vstd::prelude::*;
use crate::access::{Access, AccessKind};
use crate::counting::{count_when, lemma_count_same};
use crate::export::{keep_obs, kept_before};
use crate::graph::{edges_ok, is_blocker, ledger_after_txn, succ_at, TxNode};
use crate::ledger::{entry_blockers, entry_of, ledger_recorded, lemma_recorded_frame, EntryModel};
use crate::schedule::{
    edge_observed, edges_fwd, obs_all_valid, obs_before, obs_covers, obs_sorted, obs_valid,
    wave_of, EdgeObs,
};

verus! {

/// A slot sequence is a path when each consecutive pair is a blocking edge.
pub open spec fn is_path(g: Seq<TxNode>, path: Seq<usize>) -> bool {
    forall|t: int|
        0 <= t < path.len() - 1 ==> ((#[trigger] path[t] as int) < g.len() && (path[t + 1] as int)
            < g.len() && g[path[t] as int].succs@.contains(path[t + 1]))
}

/// Along a path slots strictly increase: every edge points forward.
pub proof fn lemma_path_increases(g: Seq<TxNode>, path: Seq<usize>, t: int)
    requires
        edges_ok(g),
        is_path(g, path),
        0 < t < path.len(),
    ensures
        path[0] < path[t],
    decreases t,
{
    if t > 1 {
        lemma_path_increases(g, path, t - 1);
    }
    let j = choose|j: int|
        0 <= j < g[path[t - 1] as int].succs@.len() && #[trigger] g[path[t - 1] as int].succs@[j]
            == path[t];
    assert(succ_at(g, path[t - 1] as int, j) == path[t] as int);
}

/// Acyclicity: no chain of blocking edges returns to its start, because
/// every edge leads from an earlier-inserted transaction to a later one.
pub proof fn law_acyclicity(g: Seq<TxNode>, path: Seq<usize>)
    requires
        edges_ok(g),
        is_path(g, path),
        path.len() >= 2,
    ensures
        path[0] != path[path.len() - 1],
{
    lemma_path_increases(g, path, path.len() - 1);
}

/// Wave monotonicity: along every edge the wave index strictly increases,
/// so a predecessor is always drained in an earlier wave than its
/// successor.
pub proof fn law_wave_monotonicity(edges: Seq<Seq<usize>>, p: int, j: int)
    requires
        edges_fwd(edges),
        0 <= p < edges.len(),
        0 <= j < edges[p].len(),
    ensures
        wave_of(edges, p) < wave_of(edges, edges[p][j] as int),
{
    let s = edges[p][j];
    assert(edges[p].contains(s)) by {
        assert(edges[p][j] == s);
    }
    crate::schedule::lemma_wave_gt_pred(edges, p, s);
}

/// A transaction that touches a resource is blocked by that resource's
/// last writer: whether it reads or writes, the writer recorded before it
/// is among its blockers.
pub proof fn law_writer_blocks_next_access(
    m: Seq<EntryModel>,
    acc: Seq<Access>,
    txn: usize,
    res: int,
    a: usize,
    i: int,
)
    requires
        entry_of(m, res).last_write == Some(a),
        0 <= i < acc.len(),
        acc[i].key as int == res,
    ensures
        is_blocker(m, acc, txn, a),
    decreases acc.len(),
{
    let key0 = acc[0].key as int;
    let kind0 = acc[0].kind;
    if i == 0 {
        assert(entry_blockers(entry_of(m, res), kind0).contains(a)) by {
            match kind0 {
                AccessKind::Write => {
                    assert(entry_blockers(entry_of(m, res), kind0)[0] == a);
                },
                AccessKind::Read => {
                    assert(entry_blockers(entry_of(m, res), kind0)[0] == a);
                },
            }
        }
    } else {
        let m1 = ledger_recorded(m, key0, kind0, txn);
        if key0 == res {
            // the transaction's own first access to the resource already
            // lists the writer
            assert(entry_blockers(entry_of(m, res), kind0).contains(a)) by {
                assert(entry_blockers(entry_of(m, res), kind0)[0] == a);
            }
        } else {
            lemma_recorded_frame(m, key0, kind0, txn);
            assert(entry_of(m1, res) == entry_of(m, res));
            assert(acc.drop_first()[i - 1] == acc[i]);
            law_writer_blocks_next_access(m1, acc.drop_first(), txn, res, a, i - 1);
        }
    }
}

/// A reader of a resource blocks the next writer: if `a` is among the
/// readers recorded since the last write, and the first access the new
/// transaction makes to that resource is a write, then `a` is among the
/// new transaction's blockers.
pub proof fn law_reader_blocks_writer(
    m: Seq<EntryModel>,
    acc: Seq<Access>,
    txn: usize,
    res: int,
    a: usize,
    i: int,
)
    requires
        entry_of(m, res).readers.contains(a),
        0 <= i < acc.len(),
        acc[i].key as int == res,
        acc[i].kind == AccessKind::Write,
        forall|j: int| 0 <= j < i ==> (#[trigger] acc[j].key) as int != res,
    ensures
        is_blocker(m, acc, txn, a),
    decreases acc.len(),
{
    let key0 = acc[0].key as int;
    let kind0 = acc[0].kind;
    if i == 0 {
        let e = entry_of(m, res);
        assert(entry_blockers(e, AccessKind::Write).contains(a)) by {
            let j = choose|j: int| 0 <= j < e.readers.len() && e.readers[j] == a;
            let off = crate::ledger::opt_to_seq(e.last_write).len() as int;
            assert(entry_blockers(e, AccessKind::Write)[off + j] == a);
        }
    } else {
        assert(key0 != res);
        let m1 = ledger_recorded(m, key0, kind0, txn);
        lemma_recorded_frame(m, key0, kind0, txn);
        assert(entry_of(m1, res) == entry_of(m, res));
        assert(acc.drop_first()[i - 1] == acc[i]);
        assert forall|j: int| 0 <= j < i - 1 implies (#[trigger] acc.drop_first()[j].key) as int
            != res by {
            assert(acc.drop_first()[j] == acc[j + 1]);
        }
        law_reader_blocks_writer(m1, acc.drop_first(), txn, res, a, i - 1);
    }
}

/// Reads do not change who last wrote a resource.
pub proof fn lemma_reads_keep_writer(m: Seq<EntryModel>, acc: Seq<Access>, txn: usize, res: int)
    requires
        0 <= res,
        forall|j: int|
            0 <= j < acc.len() ==> ((#[trigger] acc[j].key) as int == res ==> acc[j].kind
                == AccessKind::Read),
    ensures
        entry_of(ledger_after_txn(m, acc, txn), res).last_write == entry_of(m, res).last_write,
    decreases acc.len(),
{
    if acc.len() > 0 {
        let key0 = acc[0].key as int;
        let kind0 = acc[0].kind;
        let m1 = ledger_recorded(m, key0, kind0, txn);
        lemma_recorded_frame(m, key0, kind0, txn);
        assert forall|j: int|
            0 <= j < acc.drop_first().len() implies ((#[trigger] acc.drop_first()[j].key) as int
            == res ==> acc.drop_first()[j].kind == AccessKind::Read) by {
            assert(acc.drop_first()[j] == acc[j + 1]);
        }
        lemma_reads_keep_writer(m1, acc.drop_first(), txn, res);
    }
}

/// A transaction that writes a resource (and afterwards at most reads it)
/// leaves itself recorded as the resource's last writer — the state the
/// blocking laws above start from for the next transaction.
pub proof fn lemma_writer_recorded(
    m: Seq<EntryModel>,
    acc: Seq<Access>,
    txn: usize,
    res: int,
    i: int,
)
    requires
        0 <= i < acc.len(),
        acc[i].key as int == res,
        acc[i].kind == AccessKind::Write,
        forall|j: int|
            i < j < acc.len() ==> ((#[trigger] acc[j].key) as int == res ==> acc[j].kind
                == AccessKind::Read),
    ensures
        entry_of(ledger_after_txn(m, acc, txn), res).last_write == Some(txn),
    decreases acc.len(),
{
    let key0 = acc[0].key as int;
    let kind0 = acc[0].kind;
    let m1 = ledger_recorded(m, key0, kind0, txn);
    lemma_recorded_frame(m, key0, kind0, txn);
    if i == 0 {
        assert(entry_of(m1, res).last_write == Some(txn));
        assert forall|j: int|
            0 <= j < acc.drop_first().len() implies ((#[trigger] acc.drop_first()[j].key) as int
            == res ==> acc.drop_first()[j].kind == AccessKind::Read) by {
            assert(acc.drop_first()[j] == acc[j + 1]);
        }
        lemma_reads_keep_writer(m1, acc.drop_first(), txn, res);
    } else {
        assert(acc.drop_first()[i - 1] == acc[i]);
        assert forall|j: int|
            i - 1 < j < acc.drop_first().len() implies ((#[trigger] acc.drop_first()[j].key) as int
            == res ==> acc.drop_first()[j].kind == AccessKind::Read) by {
            assert(acc.drop_first()[j] == acc[j + 1]);
        }
        lemma_writer_recorded(m1, acc.drop_first(), txn, res, i - 1);
    }
}

/// A transaction that reads a resource, and never writes it afterwards,
/// leaves itself among the readers recorded since the last write.
pub proof fn lemma_reader_recorded(
    m: Seq<EntryModel>,
    acc: Seq<Access>,
    txn: usize,
    res: int,
    i: int,
)
    requires
        0 <= i < acc.len(),
        acc[i].key as int == res,
        acc[i].kind == AccessKind::Read,
        forall|j: int|
            i < j < acc.len() ==> ((#[trigger] acc[j].key) as int == res ==> acc[j].kind
                == AccessKind::Read),
    ensures
        entry_of(ledger_after_txn(m, acc, txn), res).readers.contains(txn),
    decreases acc.len(),
{
    let key0 = acc[0].key as int;
    let kind0 = acc[0].kind;
    let m1 = ledger_recorded(m, key0, kind0, txn);
    lemma_recorded_frame(m, key0, kind0, txn);
    if i == 0 {
        let e1 = entry_of(m1, res);
        assert(e1.readers.last() == txn);
        assert(e1.readers.contains(txn)) by {
            assert(e1.readers[e1.readers.len() - 1] == txn);
        }
        assert forall|j: int|
            0 <= j < acc.drop_first().len() implies ((#[trigger] acc.drop_first()[j].key) as int
            == res ==> acc.drop_first()[j].kind == AccessKind::Read) by {
            assert(acc.drop_first()[j] == acc[j + 1]);
        }
        lemma_reads_keep_readers(m1, acc.drop_first(), txn, res);
    } else {
        assert(acc.drop_first()[i - 1] == acc[i]);
        assert forall|j: int|
            i - 1 < j < acc.drop_first().len() implies ((#[trigger] acc.drop_first()[j].key) as int
            == res ==> acc.drop_first()[j].kind == AccessKind::Read) by {
            assert(acc.drop_first()[j] == acc[j + 1]);
        }
        lemma_reader_recorded(m1, acc.drop_first(), txn, res, i - 1);
    }
}

/// Reads only ever add to a resource's recorded reader set.
pub proof fn lemma_reads_keep_readers(m: Seq<EntryModel>, acc: Seq<Access>, txn: usize, res: int)
    requires
        0 <= res,
        forall|j: int|
            0 <= j < acc.len() ==> ((#[trigger] acc[j].key) as int == res ==> acc[j].kind
                == AccessKind::Read),
    ensures
        forall|a: usize|
            entry_of(m, res).readers.contains(a) ==> entry_of(
                ledger_after_txn(m, acc, txn),
                res,
            ).readers.contains(a),
    decreases acc.len(),
{
    if acc.len() > 0 {
        let key0 = acc[0].key as int;
        let kind0 = acc[0].kind;
        let m1 = ledger_recorded(m, key0, kind0, txn);
        lemma_recorded_frame(m, key0, kind0, txn);
        assert forall|j: int|
            0 <= j < acc.drop_first().len() implies ((#[trigger] acc.drop_first()[j].key) as int
            == res ==> acc.drop_first()[j].kind == AccessKind::Read) by {
            assert(acc.drop_first()[j] == acc[j + 1]);
        }
        lemma_reads_keep_readers(m1, acc.drop_first(), txn, res);
        assert forall|a: usize| entry_of(m, res).readers.contains(a) implies entry_of(
            ledger_after_txn(m, acc, txn),
            res,
        ).readers.contains(a) by {
            if key0 == res {
                let e = entry_of(m, res);
                let j = choose|j: int| 0 <= j < e.readers.len() && e.readers[j] == a;
                assert(entry_of(m1, res).readers[j] == a);
            }
            assert(entry_of(m1, res).readers.contains(a));
        }
    }
}

/// Readers do not block readers: if every access the earlier transaction
/// `a` made was a read of the resource, and the later transaction also
/// only reads it, the later one is not blocked by `a` — unless `a` had
/// been recorded as the last writer, which a pure reader never is.
pub proof fn law_readers_do_not_block(
    m: Seq<EntryModel>,
    acc: Seq<Access>,
    txn: usize,
    res: int,
    a: usize,
)
    requires
        0 <= res,
        entry_of(m, res).last_write != Some(a),
        forall|j: int|
            0 <= j < acc.len() ==> (#[trigger] acc[j].key) as int == res && acc[j].kind
                == AccessKind::Read,
    ensures
        !is_blocker(m, acc, txn, a),
    decreases acc.len(),
{
    if acc.len() > 0 {
        let key0 = acc[0].key as int;
        assert(key0 == res && acc[0].kind == AccessKind::Read);
        let e = entry_of(m, res);
        assert(!entry_blockers(e, AccessKind::Read).contains(a)) by {
            if entry_blockers(e, AccessKind::Read).contains(a) {
                let j = choose|j: int|
                    0 <= j < entry_blockers(e, AccessKind::Read).len() && entry_blockers(
                        e,
                        AccessKind::Read,
                    )[j] == a;
                assert(e.last_write == Some(a));
            }
        }
        let m1 = ledger_recorded(m, res, AccessKind::Read, txn);
        lemma_recorded_frame(m, res, AccessKind::Read, txn);
        assert(entry_of(m1, res).last_write == e.last_write);
        assert forall|j: int|
            0 <= j < acc.drop_first().len() implies (#[trigger] acc.drop_first()[j].key) as int
            == res && acc.drop_first()[j].kind == AccessKind::Read by {
            assert(acc.drop_first()[j] == acc[j + 1]);
            assert(acc[j + 1].key as int == res && acc[j + 1].kind == AccessKind::Read);
        }
        law_readers_do_not_block(m1, acc.drop_first(), txn, res, a);
    }
}

/// A transaction that nothing blocks — in particular one that declares no
/// accesses, which never receives an edge — always lands in the first
/// wave, however large the block is.
pub proof fn law_unblocked_first_wave(edges: Seq<Seq<usize>>, i: int)
    requires
        forall|p: int| 0 <= p < edges.len() ==> !(#[trigger] edges[p].contains(i as usize)),
    ensures
        wave_of(edges, i) == 1,
{
    if i >= 0 {
        crate::schedule::lemma_max_pred_wave_le(edges, i, i, 0);
        crate::schedule::lemma_max_pred_wave_nonneg(edges, i, i);
    }
}

/// The first `idx` entries of two conforming observation sequences agree.
proof fn lemma_obs_prefix_eq(
    edges: Seq<Seq<usize>>,
    os1: Seq<EdgeObs>,
    os2: Seq<EdgeObs>,
    idx: int,
)
    requires
        os1.len() == os2.len(),
        obs_all_valid(edges, os1),
        obs_all_valid(edges, os2),
        obs_sorted(edges, os1),
        obs_sorted(edges, os2),
        forall|p: int| 0 <= p < edges.len() ==> obs_covers(edges, os1, p),
        forall|p: int| 0 <= p < edges.len() ==> obs_covers(edges, os2, p),
        0 <= idx <= os1.len(),
    ensures
        forall|i: int| 0 <= i < idx ==> os1[i] == os2[i],
    decreases idx,
{
    if idx > 0 {
        lemma_obs_prefix_eq(edges, os1, os2, idx - 1);
        let t = idx - 1;
        let a = os1[t];
        let b = os2[t];
        if a != b {
            // a's edge also appears in os2, as the same observation
            assert(obs_valid(edges, a));
            let ja = choose|j: int|
                0 <= j < edges[a.source as int].len() && #[trigger] edges[a.source as int][j]
                    == a.target;
            assert(obs_covers(edges, os2, a.source as int));
            assert(edge_observed(edges, os2, a.source as int, ja));
            let k2 = choose|k: int|
                0 <= k < os2.len() && ((#[trigger] os2[k]).source as int) == a.source as int
                    && os2[k].target == edges[a.source as int][ja];
            assert(os2[k2].target == a.target);
            assert(os2[k2].source == a.source);
            assert(obs_valid(edges, os2[k2]));
            assert(os2[k2].resolving == a.resolving);
            assert(os2[k2] == a);
            if k2 < t {
                assert(os2[k2] == os1[k2]);
                assert(obs_before(edges, os1[k2], os1[t]));
                assert(false);
            } else if k2 == t {
                assert(false);
            }
            // and b's edge appears in os1
            assert(obs_valid(edges, b));
            let jb = choose|j: int|
                0 <= j < edges[b.source as int].len() && #[trigger] edges[b.source as int][j]
                    == b.target;
            assert(obs_covers(edges, os1, b.source as int));
            assert(edge_observed(edges, os1, b.source as int, jb));
            let k1 = choose|k: int|
                0 <= k < os1.len() && ((#[trigger] os1[k]).source as int) == b.source as int
                    && os1[k].target == edges[b.source as int][jb];
            assert(os1[k1].target == b.target);
            assert(os1[k1].source == b.source);
            assert(obs_valid(edges, os1[k1]));
            assert(os1[k1].resolving == b.resolving);
            assert(os1[k1] == b);
            if k1 < t {
                assert(os1[k1] == os2[k1]);
                assert(obs_before(edges, os2[k1], os2[t]));
                assert(false);
            } else if k1 == t {
                assert(false);
            }
            // each precedes the other in the emission order: impossible
            assert(obs_before(edges, os2[t], os2[k2]));
            assert(obs_before(edges, os1[t], os1[k1]));
            assert(obs_before(edges, b, a) && obs_before(edges, a, b));
            assert(false);
        }
    }
}

/// Idempotent re-drain: the scheduler's contract pins its report
/// completely. Any two observation sequences over the same graph that
/// satisfy it — valid entries, strict emission order, every edge covered —
/// are equal; and since each node's final depth equals its wave index, the
/// depth assignments of two runs agree as well.
pub proof fn law_redrain_identical(edges: Seq<Seq<usize>>, os1: Seq<EdgeObs>, os2: Seq<EdgeObs>)
    requires
        os1.len() == os2.len(),
        obs_all_valid(edges, os1),
        obs_all_valid(edges, os2),
        obs_sorted(edges, os1),
        obs_sorted(edges, os2),
        forall|p: int| 0 <= p < edges.len() ==> obs_covers(edges, os1, p),
        forall|p: int| 0 <= p < edges.len() ==> obs_covers(edges, os2, p),
    ensures
        os1 == os2,
{
    lemma_obs_prefix_eq(edges, os1, os2, os1.len() as int);
    assert(os1 =~= os2);
}

/// With the verbose flag off, exactly the resolving observations are kept.
pub proof fn law_kept_equals_resolving(obs: Seq<EdgeObs>)
    ensures
        kept_before(obs, false, obs.len() as int) == count_when(
            |k: int| 0 <= k < obs.len() && obs[k].resolving,
            obs.len() as int,
        ),
{
    lemma_count_same(
        |k: int| 0 <= k < obs.len() && keep_obs(obs[k], false),
        |k: int| 0 <= k < obs.len() && obs[k].resolving,
        obs.len() as int,
    );
}

} // verus!
