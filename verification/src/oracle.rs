//! The oracle: the timestamp allocator and conflict arbiter that orders
//! commits under snapshot isolation.

use vstd::prelude::*;

use crate::errors::DBError;
use crate::kv::TxnTs;

verus! {

/// A recently committed transaction: its commit timestamp and the hashes of
/// the keys it wrote.
pub struct CommittedTxn {
    pub ts: TxnTs,
    pub conflict_keys: Vec<u64>,
}

/// Some hash occurs in both lists.
pub open spec fn spec_intersects(a: Seq<u64>, b: Seq<u64>) -> bool {
    exists|i: int, j: int| 0 <= i < a.len() && 0 <= j < b.len() && a[i] == b[j]
}

/// A commit newer than `read_ts` wrote a key this transaction read.
pub open spec fn spec_has_conflict(committed: Seq<CommittedTxn>, read_ts: u64, reads: Seq<u64>) -> bool {
    exists|i: int|
        0 <= i < committed.len() && committed[i].ts.0 > read_ts && spec_intersects(
            committed[i].conflict_keys@,
            reads,
        )
}

/// Whether some hash occurs in both vectors.
pub fn intersects(a: &Vec<u64>, b: &Vec<u64>) -> (r: bool)
    ensures
        r == spec_intersects(a@, b@),
{
    let mut i: usize = 0;
    while i < a.len()
        invariant
            i <= a@.len(),
            forall|x: int, y: int|
                0 <= x < i && 0 <= y < b@.len() ==> a@[x] != b@[y],
        decreases a@.len() - i,
    {
        let mut j: usize = 0;
        while j < b.len()
            invariant
                i < a@.len(),
                j <= b@.len(),
                forall|y: int| 0 <= y < j ==> a@[i as int] != b@[y],
            decreases b@.len() - j,
        {
            if a[i] == b[j] {
                return true;
            }
            j = j + 1;
        }
        i = i + 1;
    }
    false
}

/// Allocates read and commit timestamps, detects conflicts, and tracks
/// which commits readers may rely on.
pub struct Oracle {
    /// The next commit timestamp to hand out.
    pub next_ts: TxnTs,
    /// Recent commits, kept while a reader might still conflict with them.
    pub committed: Vec<CommittedTxn>,
    /// Every read with a timestamp at or below this mark has finished.
    pub read_mark: TxnTs,
    /// Every commit with a timestamp at or below this mark is visible.
    pub commit_mark: TxnTs,
    /// When false, commit allocation is a bare counter.
    pub detect_conflicts: bool,
}

/// The oracle's bookkeeping is coherent: timestamps already handed out lie
/// strictly below `next_ts`.
pub open spec fn oracle_wf(o: Oracle) -> bool {
    &&& o.next_ts.0 >= 1
    &&& forall|i: int| 0 <= i < o.committed@.len() ==> (#[trigger] o.committed@[i].ts.0)
        < o.next_ts.0
}

impl Oracle {
    pub fn new(detect_conflicts: bool) -> (r: Self)
        ensures
            oracle_wf(r),
            r.next_ts.0 == 1,
            r.committed@.len() == 0,
            r.detect_conflicts == detect_conflicts,
    {
        Oracle {
            next_ts: TxnTs(1),
            committed: Vec::new(),
            read_mark: TxnTs(0),
            commit_mark: TxnTs(0),
            detect_conflicts,
        }
    }

    /// The snapshot a new transaction reads at: every commit with a
    /// timestamp at or below the returned value is visible.
    pub fn get_latest_read_ts(&self) -> (r: TxnTs)
        requires
            oracle_wf(*self),
        ensures
            r.0 == self.next_ts.0 - 1,
    {
        TxnTs(self.next_ts.0 - 1)
    }

    /// Assigns the next commit timestamp, or fails with `Conflict` when a
    /// commit newer than the transaction's snapshot wrote a key it read.
    /// Commits the allocation atomically: recent-commit entries no reader
    /// can conflict with any more are dropped, and the new commit's key
    /// hashes are recorded.
    pub fn get_latest_commit_ts(
        &mut self,
        read_ts: TxnTs,
        read_key_hash: &Vec<u64>,
        conflict_keys: Vec<u64>,
    ) -> (r: Result<TxnTs, DBError>)
        requires
            oracle_wf(*old(self)),
            old(self).next_ts.0 < u64::MAX,
        ensures
            oracle_wf(*final(self)),
            r is Err <==> (old(self).detect_conflicts && read_key_hash@.len() > 0
                && spec_has_conflict(old(self).committed@, read_ts.0, read_key_hash@)),
            r is Err ==> r == Err::<TxnTs, DBError>(DBError::Conflict) && *final(self) == *old(
                self,
            ),
            r is Ok ==> ({
                &&& r.unwrap() == old(self).next_ts
                &&& final(self).next_ts.0 == old(self).next_ts.0 + 1
                &&& final(self).detect_conflicts == old(self).detect_conflicts
                &&& final(self).read_mark == old(self).read_mark
                &&& final(self).commit_mark == old(self).commit_mark
                &&& (old(self).detect_conflicts ==> final(self).committed@.len() > 0
                    && final(self).committed@.last().ts == old(self).next_ts
                    && final(self).committed@.last().conflict_keys@ == conflict_keys@)
            }),
    {
        if self.detect_conflicts && read_key_hash.len() > 0 {
            let mut i: usize = 0;
            while i < self.committed.len()
                invariant
                    *self == *old(self),
                    oracle_wf(*old(self)),
                    i <= self.committed@.len(),
                    old(self).detect_conflicts,
                    read_key_hash@.len() > 0,
                    forall|x: int|
                        0 <= x < i ==> !((#[trigger] self.committed@[x].ts.0) > read_ts.0
                            && spec_intersects(self.committed@[x].conflict_keys@, read_key_hash@)),
                decreases self.committed@.len() - i,
            {
                let entry_ts = self.committed[i].ts;
                if entry_ts.0 > read_ts.0 {
                    let hit = intersects(&self.committed[i].conflict_keys, read_key_hash);
                    if hit {
                        proof {
                            assert(old(self).committed@[i as int].ts.0 > read_ts.0
                                && spec_intersects(
                                old(self).committed@[i as int].conflict_keys@,
                                read_key_hash@,
                            ));
                        }
                        return Err(DBError::Conflict);
                    }
                }
                i = i + 1;
            }
        }
        let commit_ts = self.next_ts;
        self.next_ts = TxnTs(self.next_ts.0 + 1);
        self.cleanup_committed();
        if self.detect_conflicts {
            self.committed.push(CommittedTxn { ts: commit_ts, conflict_keys });
        }
        Ok(commit_ts)
    }

    /// Drops recent-commit entries no open reader can conflict with any
    /// more: those at or below the read mark.
    pub fn cleanup_committed(&mut self)
        requires
            oracle_wf(*old(self)),
        ensures
            oracle_wf(*final(self)),
            final(self).next_ts == old(self).next_ts,
            final(self).read_mark == old(self).read_mark,
            final(self).commit_mark == old(self).commit_mark,
            final(self).detect_conflicts == old(self).detect_conflicts,
            forall|i: int|
                0 <= i < final(self).committed@.len() ==> (#[trigger] final(self).committed@[i].ts.0)
                    > old(self).read_mark.0,
    {
        let max_read_ts = self.read_mark;
        let mut kept: Vec<CommittedTxn> = Vec::new();
        loop
            invariant
                self.next_ts == old(self).next_ts,
                self.read_mark == old(self).read_mark,
                self.commit_mark == old(self).commit_mark,
                self.detect_conflicts == old(self).detect_conflicts,
                max_read_ts == old(self).read_mark,
                oracle_wf(*self),
                forall|i: int|
                    0 <= i < kept@.len() ==> (#[trigger] kept@[i].ts.0) > max_read_ts.0,
                forall|i: int|
                    0 <= i < kept@.len() ==> (#[trigger] kept@[i].ts.0) < self.next_ts.0,
            decreases self.committed@.len(),
        {
            match self.committed.pop() {
                None => {
                    break ;
                },
                Some(entry) => {
                    if entry.ts.0 > max_read_ts.0 {
                        kept.push(entry);
                    }
                },
            }
        }
        self.committed = kept;
    }

    /// Marks the commit with this timestamp as durable and visible.
    pub fn done_commit(&mut self, ts: TxnTs)
        ensures
            final(self).commit_mark.0 == if ts.0 > old(self).commit_mark.0 {
                ts.0
            } else {
                old(self).commit_mark.0
            },
            final(self).next_ts == old(self).next_ts,
            final(self).read_mark == old(self).read_mark,
            final(self).committed == old(self).committed,
            final(self).detect_conflicts == old(self).detect_conflicts,
    {
        if ts.0 > self.commit_mark.0 {
            self.commit_mark = ts;
        }
    }

    /// Marks the read at this timestamp as finished.
    pub fn done_read(&mut self, ts: TxnTs)
        ensures
            final(self).read_mark.0 == if ts.0 > old(self).read_mark.0 {
                ts.0
            } else {
                old(self).read_mark.0
            },
            final(self).next_ts == old(self).next_ts,
            final(self).commit_mark == old(self).commit_mark,
            final(self).committed == old(self).committed,
            final(self).detect_conflicts == old(self).detect_conflicts,
    {
        if ts.0 > self.read_mark.0 {
            self.read_mark = ts;
        }
    }
}

// ---------------------------------------------------------------------------
// Laws
// ---------------------------------------------------------------------------

/// Commit monotonicity: when one commit's allocation completes before
/// another begins, the first timestamp is strictly smaller. The ensures of
/// `get_latest_commit_ts` hand each caller `old.next_ts` and leave
/// `next_ts` one larger, so the second allocation starts from a strictly
/// larger counter.
pub proof fn lemma_commit_monotonic(pre_a: Oracle, mid: Oracle, ts_a: TxnTs, ts_b: TxnTs)
    requires
        ts_a == pre_a.next_ts,
        mid.next_ts.0 == pre_a.next_ts.0 + 1,
        ts_b == mid.next_ts,
    ensures
        ts_a.0 < ts_b.0,
{
}

/// Snapshot-isolation conflict law: under conflict detection, an update
/// transaction that read a key some commit newer than its snapshot wrote
/// cannot get a commit timestamp; and one whose reads no newer commit
/// touched always can. This restates the exact `get_latest_commit_ts`
/// contract as a law over the oracle's recent-commit record.
pub proof fn lemma_snapshot_isolation_conflict(
    o: Oracle,
    read_ts: TxnTs,
    reads: Seq<u64>,
    r: Result<TxnTs, DBError>,
)
    requires
        o.detect_conflicts,
        reads.len() > 0,
        r is Err <==> spec_has_conflict(o.committed@, read_ts.0, reads),
        r is Err ==> r == Err::<TxnTs, DBError>(DBError::Conflict),
    ensures
        (exists|i: int|
            0 <= i < o.committed@.len() && (#[trigger] o.committed@[i].ts.0) > read_ts.0
                && spec_intersects(o.committed@[i].conflict_keys@, reads)) ==> r == Err::<
            TxnTs,
            DBError,
        >(DBError::Conflict),
        (forall|i: int|
            0 <= i < o.committed@.len() ==> !((#[trigger] o.committed@[i].ts.0) > read_ts.0
                && spec_intersects(o.committed@[i].conflict_keys@, reads))) ==> r is Ok,
{
}

} // verus!
