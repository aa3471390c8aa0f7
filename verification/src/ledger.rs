use vstd::prelude::*;
use crate::access::AccessKind;

verus! {

/// Mathematical model of one resource's bookkeeping: the most recent writer,
/// if any, and the transactions that read since that write.
pub ghost struct EntryModel {
    pub last_write: Option<usize>,
    pub readers: Seq<usize>,
}

/// Bookkeeping for one resource.
pub struct ResourceEntry {
    pub last_write: Option<usize>,
    pub readers: Vec<usize>,
}

impl View for ResourceEntry {
    type V = EntryModel;

    open spec fn view(&self) -> EntryModel {
        EntryModel { last_write: self.last_write, readers: self.readers@ }
    }
}

pub open spec fn fresh_entry() -> EntryModel {
    EntryModel { last_write: None, readers: Seq::empty() }
}

/// The entry for `key`: keys at or past the end of the ledger have never
/// been accessed and behave as the fresh entry.
pub open spec fn entry_of(m: Seq<EntryModel>, key: int) -> EntryModel {
    if 0 <= key < m.len() {
        m[key]
    } else {
        fresh_entry()
    }
}

pub open spec fn opt_to_seq(o: Option<usize>) -> Seq<usize> {
    match o {
        Some(i) => seq![i],
        None => Seq::empty(),
    }
}

/// The ids that must precede a new access of `kind` to a resource whose
/// entry is `e`: a write waits for the last write and for every read since
/// it; a read waits only for the last write.
pub open spec fn entry_blockers(e: EntryModel, kind: AccessKind) -> Seq<usize> {
    match kind {
        AccessKind::Write => opt_to_seq(e.last_write) + e.readers,
        AccessKind::Read => opt_to_seq(e.last_write),
    }
}

/// The entry after `txn` performs an access of `kind` on it.
pub open spec fn entry_recorded(e: EntryModel, kind: AccessKind, txn: usize) -> EntryModel {
    match kind {
        AccessKind::Write => EntryModel { last_write: Some(txn), readers: Seq::empty() },
        AccessKind::Read => EntryModel { last_write: e.last_write, readers: e.readers.push(txn) },
    }
}

/// The ledger padded with fresh entries up to length `n`.
pub open spec fn padded_to(m: Seq<EntryModel>, n: int) -> Seq<EntryModel> {
    if m.len() >= n {
        m
    } else {
        m + Seq::new((n - m.len()) as nat, |i: int| fresh_entry())
    }
}

/// The whole ledger after `record(key, kind, txn)`.
pub open spec fn ledger_recorded(m: Seq<EntryModel>, key: int, kind: AccessKind, txn: usize) -> Seq<
    EntryModel,
> {
    padded_to(m, key + 1).update(key, entry_recorded(entry_of(m, key), kind, txn))
}

/// Every id recorded in entry `e` is below `n`.
pub open spec fn entry_ids_below(e: EntryModel, n: int) -> bool {
    &&& (e.last_write matches Some(w) ==> w < n)
    &&& forall|j: int| 0 <= j < e.readers.len() ==> e.readers[j] < n
}

/// Every id recorded anywhere in the ledger is below `n`.
pub open spec fn ids_below(m: Seq<EntryModel>, n: int) -> bool {
    forall|k: int| 0 <= k < m.len() ==> entry_ids_below(#[trigger] m[k], n)
}

/// Recording an access never touches the entries of other keys, and records
/// no id beyond the acting transaction's own.
pub proof fn lemma_recorded_frame(m: Seq<EntryModel>, key: int, kind: AccessKind, txn: usize)
    requires
        0 <= key,
    ensures
        forall|k: int|
            k != key ==> entry_of(ledger_recorded(m, key, kind, txn), k) == entry_of(m, k),
        entry_of(ledger_recorded(m, key, kind, txn), key) == entry_recorded(
            entry_of(m, key),
            kind,
            txn,
        ),
{
    let r = ledger_recorded(m, key, kind, txn);
    assert forall|k: int| k != key implies entry_of(r, k) == entry_of(m, k) by {
        if 0 <= k < m.len() {
            assert(r[k] == m[k]);
        }
    }
}

pub proof fn lemma_recorded_ids_below(
    m: Seq<EntryModel>,
    key: int,
    kind: AccessKind,
    txn: usize,
    n: int,
)
    requires
        0 <= key,
        ids_below(m, n),
        txn < n,
    ensures
        ids_below(ledger_recorded(m, key, kind, txn), n),
        forall|j: int|
            0 <= j < entry_blockers(entry_of(m, key), kind).len() ==> entry_blockers(
                entry_of(m, key),
                kind,
            )[j] < n,
{
    let r = ledger_recorded(m, key, kind, txn);
    let e = entry_of(m, key);
    assert(entry_ids_below(e, n));
    assert forall|k: int| 0 <= k < r.len() implies entry_ids_below(#[trigger] r[k], n) by {
        if k == key {
            assert(r[k] == entry_recorded(e, kind, txn));
        } else if 0 <= k < m.len() {
            assert(r[k] == m[k]);
        } else {
            assert(r[k] == fresh_entry());
        }
    }
}

/// The resource access ledger: entry `k` keeps the bookkeeping of resource
/// `k`. Entries are created lazily on first access.
pub struct AccessLedger {
    pub entries: Vec<ResourceEntry>,
}

impl View for AccessLedger {
    type V = Seq<EntryModel>;

    open spec fn view(&self) -> Seq<EntryModel> {
        self.entries@.map_values(|e: ResourceEntry| e@)
    }
}

impl AccessLedger {
    /// An empty ledger: no resource has been accessed.
    pub fn new() -> (r: Self)
        ensures
            r@ == Seq::<EntryModel>::empty(),
    {
        let r = AccessLedger { entries: Vec::new() };
        proof {
            assert(r@ =~= Seq::<EntryModel>::empty());
        }
        r
    }

    /// Register an access of `kind` on `key` by transaction `txn` and return
    /// the ids that must precede it, in a fixed order: the last writer first,
    /// then (for a write) the readers since that write, oldest first.
    pub fn record(&mut self, key: usize, kind: AccessKind, txn: usize) -> (blockers: Vec<usize>)
        ensures
            blockers@ == entry_blockers(entry_of(old(self)@, key as int), kind),
            final(self)@ == ledger_recorded(old(self)@, key as int, kind, txn),
    {
        let ghost m0 = self@;
        while self.entries.len() <= key
            invariant
                self@ == padded_to(m0, self.entries@.len() as int),
                self.entries@.len() >= m0.len(),
                self.entries@.len() <= key + 1 || self.entries@.len() == m0.len(),
            decreases key + 1 - self.entries@.len(),
        {
            let ghost len0 = self.entries@.len() as int;
            let ghost prev = self@;
            self.entries.push(ResourceEntry { last_write: None, readers: Vec::new() });
            proof {
                assert(self@ =~~= prev.push(fresh_entry()));
                assert(prev.push(fresh_entry()) =~~= padded_to(m0, len0 + 1));
            }
        }
        proof {
            if self.entries@.len() as int == key + 1 {
                assert(self@ == padded_to(m0, key + 1));
            } else {
                assert(self.entries@.len() == m0.len() && m0.len() > key + 1);
                assert(self@ == padded_to(m0, key + 1));
            }
            assert(self@[key as int] == entry_of(m0, key as int));
        }
        let ghost e0 = entry_of(m0, key as int);
        let mut blockers: Vec<usize> = Vec::new();
        match self.entries[key].last_write {
            Some(p) => blockers.push(p),
            None => {},
        }
        proof {
            assert(blockers@ =~= opt_to_seq(e0.last_write));
        }
        match kind {
            AccessKind::Write => {
                let mut j: usize = 0;
                let readers_len = self.entries[key].readers.len();
                while j < readers_len
                    invariant
                        j <= readers_len,
                        readers_len == self.entries@[key as int].readers@.len(),
                        key < self.entries@.len(),
                        self@ == padded_to(m0, key + 1),
                        self@[key as int] == e0,
                        blockers@ == opt_to_seq(e0.last_write) + e0.readers.take(j as int),
                    decreases readers_len - j,
                {
                    blockers.push(self.entries[key].readers[j]);
                    j += 1;
                    proof {
                        assert(blockers@ =~= opt_to_seq(e0.last_write) + e0.readers.take(j as int));
                    }
                }
                proof {
                    assert(e0.readers.take(readers_len as int) =~= e0.readers);
                }
                let e = &mut self.entries[key];
                e.last_write = Some(txn);
                e.readers = Vec::new();
            },
            AccessKind::Read => {
                let e = &mut self.entries[key];
                e.readers.push(txn);
            },
        }
        proof {
            assert(self@ =~~= ledger_recorded(m0, key as int, kind, txn));
        }
        blockers
    }
}

} // verus!
