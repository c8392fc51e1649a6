//! Levels of the tree: table summaries, the per-level table list with its
//! ordering invariant, and the searches compaction planning needs.

use vstd::prelude::*;

use vstd::multiset::Multiset;

use crate::kv::keyts_cmp;
use crate::kv::keyts_le;
use crate::kv::keyts_lt;
use crate::kv::Entry;
use crate::kv::KeyTs;

verus! {

/// A level number; level zero is special: its tables may overlap and are
/// ordered by table id.
#[derive(Debug, Clone, Copy, PartialEq, Eq, Structural, Hash)]
pub struct Level(pub u8);

impl Level {
    pub fn new(v: u8) -> (r: Level)
        ensures
            r.0 == v,
    {
        Level(v)
    }

    pub fn to_usize(&self) -> (r: usize)
        ensures
            r == self.0,
    {
        self.0 as usize
    }

    pub fn is_level0(&self) -> (r: bool)
        ensures
            r == (self.0 == 0),
    {
        self.0 == 0
    }
}

/// What the tree keeps of one SSTable: its id, its key range, its sizes,
/// and — in this in-memory model — the entries it holds.
#[derive(Debug)]
pub struct Table {
    pub table_id: u64,
    pub smallest: KeyTs,
    pub biggest: KeyTs,
    pub size: usize,
    pub stale_data_size: u32,
    pub entries: Vec<Entry>,
}

impl Clone for Table {
    fn clone(&self) -> (r: Self)
        ensures
            r.table_id == self.table_id,
            r.smallest.key@ == self.smallest.key@,
            r.smallest.txn_ts == self.smallest.txn_ts,
            r.biggest.key@ == self.biggest.key@,
            r.biggest.txn_ts == self.biggest.txn_ts,
            r.size == self.size,
            r.stale_data_size == self.stale_data_size,
            r.entries@.len() == self.entries@.len(),
            forall|i: int|
                0 <= i < self.entries@.len() ==> crate::db::entry_fields_eq(
                    #[trigger] r.entries@[i],
                    self.entries@[i],
                ),
    {
        let mut entries: Vec<Entry> = Vec::new();
        let mut i: usize = 0;
        while i < self.entries.len()
            invariant
                i <= self.entries@.len(),
                entries@.len() == i,
                forall|x: int|
                    0 <= x < i ==> crate::db::entry_fields_eq(
                        #[trigger] entries@[x],
                        self.entries@[x],
                    ),
            decreases self.entries@.len() - i,
        {
            entries.push(self.entries[i].clone());
            i = i + 1;
        }
        Table {
            table_id: self.table_id,
            smallest: self.smallest.clone(),
            biggest: self.biggest.clone(),
            size: self.size,
            stale_data_size: self.stale_data_size,
            entries,
        }
    }
}

/// Tables ordered by table id.
pub open spec fn tables_sorted_by_id(ts: Seq<Table>) -> bool {
    forall|i: int, j: int|
        0 <= i < j < ts.len() ==> (#[trigger] ts[i].table_id) <= (#[trigger] ts[j].table_id)
}

/// Tables ordered by smallest key.
pub open spec fn tables_sorted_by_smallest(ts: Seq<Table>) -> bool {
    forall|i: int, j: int|
        0 <= i < j < ts.len() ==> keyts_le(
            (#[trigger] ts[i]).smallest.key@,
            ts[i].smallest.txn_ts.0,
            (#[trigger] ts[j]).smallest.key@,
            ts[j].smallest.txn_ts.0,
        )
}

/// The invariant of a level above zero: each table's range is ordered, and
/// adjacent tables do not overlap — each one ends strictly before the next
/// begins.
pub open spec fn level_tables_wf(ts: Seq<Table>) -> bool {
    &&& forall|i: int|
        0 <= i < ts.len() ==> keyts_le(
            (#[trigger] ts[i]).smallest.key@,
            ts[i].smallest.txn_ts.0,
            ts[i].biggest.key@,
            ts[i].biggest.txn_ts.0,
        )
    &&& forall|i: int|
        0 <= i < ts.len() - 1 ==> keyts_lt(
            (#[trigger] ts[i]).biggest.key@,
            ts[i].biggest.txn_ts.0,
            ts[i + 1].smallest.key@,
            ts[i + 1].smallest.txn_ts.0,
        )
}

/// The non-overlap law of a level above zero, stated pairwise: every table
/// ends strictly before any later one begins.
pub proof fn lemma_level_wf_pairwise(ts: Seq<Table>)
    requires
        level_tables_wf(ts),
    ensures
        forall|i: int, j: int|
            0 <= i < j < ts.len() ==> keyts_lt(
                (#[trigger] ts[i]).biggest.key@,
                ts[i].biggest.txn_ts.0,
                (#[trigger] ts[j]).smallest.key@,
                ts[j].smallest.txn_ts.0,
            ),
{
    assert forall|i: int, j: int| 0 <= i < j < ts.len() implies keyts_lt(
        (#[trigger] ts[i]).biggest.key@,
        ts[i].biggest.txn_ts.0,
        (#[trigger] ts[j]).smallest.key@,
        ts[j].smallest.txn_ts.0,
    ) by {
        lemma_level_wf_step(ts, i, j);
    }
}

proof fn lemma_level_wf_step(ts: Seq<Table>, i: int, j: int)
    requires
        level_tables_wf(ts),
        0 <= i < j < ts.len(),
    ensures
        keyts_lt(
            ts[i].biggest.key@,
            ts[i].biggest.txn_ts.0,
            ts[j].smallest.key@,
            ts[j].smallest.txn_ts.0,
        ),
    decreases j - i,
{
    if j == i + 1 {
    } else {
        lemma_level_wf_step(ts, i + 1, j);
        crate::kv::lemma_keyts_order_total(
            ts[i].biggest.key@,
            ts[i].biggest.txn_ts.0,
            ts[i + 1].smallest.key@,
            ts[i + 1].smallest.txn_ts.0,
            ts[i + 1].biggest.key@,
            ts[i + 1].biggest.txn_ts.0,
        );
        crate::kv::lemma_keyts_order_total(
            ts[i].biggest.key@,
            ts[i].biggest.txn_ts.0,
            ts[i + 1].biggest.key@,
            ts[i + 1].biggest.txn_ts.0,
            ts[j].smallest.key@,
            ts[j].smallest.txn_ts.0,
        );
    }
}

/// The bytes the level's tables take together.
pub open spec fn sum_sizes(ts: Seq<Table>) -> int
    decreases ts.len(),
{
    if ts.len() == 0 {
        0
    } else {
        sum_sizes(ts.drop_last()) + ts.last().size
    }
}

pub proof fn lemma_sum_sizes_nonneg(ts: Seq<Table>)
    ensures
        sum_sizes(ts) >= 0,
    decreases ts.len(),
{
    if ts.len() > 0 {
        lemma_sum_sizes_nonneg(ts.drop_last());
    }
}

/// The stale bytes the level's tables carry together.
pub open spec fn sum_stales(ts: Seq<Table>) -> int
    decreases ts.len(),
{
    if ts.len() == 0 {
        0
    } else {
        sum_stales(ts.drop_last()) + ts.last().stale_data_size
    }
}

pub proof fn lemma_sum_stales_nonneg(ts: Seq<Table>)
    ensures
        sum_stales(ts) >= 0,
    decreases ts.len(),
{
    if ts.len() > 0 {
        lemma_sum_stales_nonneg(ts.drop_last());
    }
}

/// A prefix of either sum never exceeds the whole.
proof fn lemma_sum_prefix_le(ts: Seq<Table>, k: int)
    requires
        0 <= k <= ts.len(),
    ensures
        sum_sizes(ts.subrange(0, k)) <= sum_sizes(ts),
        sum_stales(ts.subrange(0, k)) <= sum_stales(ts),
    decreases ts.len() - k,
{
    if k == ts.len() {
        assert(ts.subrange(0, k) =~= ts);
    } else {
        lemma_sum_prefix_le(ts, k + 1);
        assert(ts.subrange(0, k + 1).drop_last() =~= ts.subrange(0, k));
        assert(sum_sizes(ts.subrange(0, k + 1)) == sum_sizes(ts.subrange(0, k)) + ts[k].size);
        assert(sum_stales(ts.subrange(0, k + 1)) == sum_stales(ts.subrange(0, k))
            + ts[k].stale_data_size);
    }
}

/// Sums a table list's sizes and stale bytes; fails exactly when either
/// total outgrows its field.
fn compute_totals(tables: &Vec<Table>) -> (r: Result<(usize, u32), crate::errors::DBError>)
    ensures
        r is Ok <==> sum_sizes(tables@) <= usize::MAX && sum_stales(tables@) <= u32::MAX,
        r is Ok ==> r.unwrap().0 == sum_sizes(tables@) && r.unwrap().1 == sum_stales(tables@),
        r is Err ==> r == Err::<(usize, u32), crate::errors::DBError>(
            crate::errors::DBError::ValuelogSize,
        ),
{
    let mut total_size: usize = 0;
    let mut total_stale: u32 = 0;
    let mut i: usize = 0;
    while i < tables.len()
        invariant
            i <= tables@.len(),
            total_size == sum_sizes(tables@.subrange(0, i as int)),
            total_stale == sum_stales(tables@.subrange(0, i as int)),
        decreases tables@.len() - i,
    {
        proof {
            assert(tables@.subrange(0, i + 1).drop_last() =~= tables@.subrange(0, i as int));
            assert(tables@.subrange(0, i + 1).last() == tables@[i as int]);
            lemma_sum_sizes_nonneg(tables@.subrange(0, i as int));
            lemma_sum_stales_nonneg(tables@.subrange(0, i as int));
        }
        if tables[i].size > usize::MAX - total_size {
            proof {
                lemma_sum_prefix_le(tables@, i + 1);
            }
            return Err(crate::errors::DBError::ValuelogSize);
        }
        if tables[i].stale_data_size > u32::MAX - total_stale {
            proof {
                lemma_sum_prefix_le(tables@, i + 1);
            }
            return Err(crate::errors::DBError::ValuelogSize);
        }
        total_size = total_size + tables[i].size;
        total_stale = total_stale + tables[i].stale_data_size;
        i = i + 1;
    }
    proof {
        assert(tables@.subrange(0, tables@.len() as int) =~= tables@);
    }
    Ok((total_size, total_stale))
}

/// Sorts tables by id (level zero) or by smallest key (other levels),
/// keeping exactly the given tables.
fn sort_tables(tables: Vec<Table>, by_id: bool) -> (r: Vec<Table>)
    ensures
        r@.to_multiset() == tables@.to_multiset(),
        r@.len() == tables@.len(),
        by_id ==> tables_sorted_by_id(r@),
        !by_id ==> tables_sorted_by_smallest(r@),
{
    broadcast use vstd::seq_lib::group_to_multiset_ensures;

    let mut rest = tables;
    let mut out: Vec<Table> = Vec::new();
    let ghost orig_ms = rest@.to_multiset();
    while rest.len() > 0
        invariant
            out@.to_multiset().add(rest@.to_multiset()) =~= orig_ms,
            out@.len() + rest@.len() == orig_ms.len(),
            by_id ==> tables_sorted_by_id(out@),
            !by_id ==> tables_sorted_by_smallest(out@),
            by_id ==> forall|i: int, j: int|
                0 <= i < out@.len() && 0 <= j < rest@.len() ==> (#[trigger] out@[i].table_id)
                    <= (#[trigger] rest@[j].table_id),
            !by_id ==> forall|i: int, j: int|
                0 <= i < out@.len() && 0 <= j < rest@.len() ==> keyts_le(
                    (#[trigger] out@[i]).smallest.key@,
                    out@[i].smallest.txn_ts.0,
                    (#[trigger] rest@[j]).smallest.key@,
                    rest@[j].smallest.txn_ts.0,
                ),
        decreases rest@.len(),
    {
        // Find the least remaining table.
        let mut min: usize = 0;
        let mut i: usize = 1;
        proof {
            crate::kv::lemma_keyts_refl_nlt(
                rest@[0].smallest.key@,
                rest@[0].smallest.txn_ts.0,
                rest@[0].smallest.key@,
                rest@[0].smallest.txn_ts.0,
            );
        }
        while i < rest.len()
            invariant
                rest@.len() > 0,
                min < i,
                i <= rest@.len(),
                by_id ==> forall|x: int|
                    0 <= x < i ==> rest@[min as int].table_id <= (#[trigger] rest@[x].table_id),
                !by_id ==> forall|x: int|
                    0 <= x < i ==> keyts_le(
                        rest@[min as int].smallest.key@,
                        rest@[min as int].smallest.txn_ts.0,
                        (#[trigger] rest@[x]).smallest.key@,
                        rest@[x].smallest.txn_ts.0,
                    ),
            decreases rest@.len() - i,
        {
            let ghost old_min = min as int;
            let smaller: bool = if by_id {
                rest[i].table_id < rest[min].table_id
            } else {
                let ord = KeyTs::cmp(&rest[i].smallest, &rest[min].smallest);
                matches!(ord, core::cmp::Ordering::Less)
            };
            if smaller {
                min = i;
            }
            proof {
                if !by_id {
                    crate::kv::lemma_keyts_refl_nlt(
                        rest@[i as int].smallest.key@,
                        rest@[i as int].smallest.txn_ts.0,
                        rest@[old_min].smallest.key@,
                        rest@[old_min].smallest.txn_ts.0,
                    );
                    if smaller {
                        assert forall|x: int| 0 <= x < i + 1 implies keyts_le(
                            rest@[min as int].smallest.key@,
                            rest@[min as int].smallest.txn_ts.0,
                            (#[trigger] rest@[x]).smallest.key@,
                            rest@[x].smallest.txn_ts.0,
                        ) by {
                            if x < i {
                                crate::kv::lemma_keyts_order_total(
                                    rest@[i as int].smallest.key@,
                                    rest@[i as int].smallest.txn_ts.0,
                                    rest@[old_min].smallest.key@,
                                    rest@[old_min].smallest.txn_ts.0,
                                    rest@[x].smallest.key@,
                                    rest@[x].smallest.txn_ts.0,
                                );
                            }
                        }
                    }
                }
            }
            i = i + 1;
        }
        let ghost rest_before_seq = rest@;
        let ghost out_before_seq = out@;
        let picked = rest.remove(min);
        out.push(picked);
        proof {
            rest_before_seq.to_multiset_ensures();
            out_before_seq.to_multiset_ensures();
            rest@.to_multiset_ensures();
            out@.to_multiset_ensures();
            assert(rest_before_seq[min as int] == picked);
            assert(rest@ == rest_before_seq.remove(min as int));
            assert(rest_before_seq.remove(min as int).to_multiset() =~= rest_before_seq.to_multiset().remove(picked));
            assert(rest@.to_multiset() =~= rest_before_seq.to_multiset().remove(picked));
            assert(rest_before_seq.contains(picked));
            assert(rest_before_seq.to_multiset().count(picked) > 0);
            assert(out@.to_multiset() =~= out_before_seq.to_multiset().insert(picked));
            assert(out@.to_multiset().add(rest@.to_multiset()) =~= orig_ms);
        }
    }
    proof {
        rest@.to_multiset_ensures();
        assert(rest@.to_multiset() =~= Multiset::<Table>::empty());
        assert(out@.to_multiset() =~= orig_ms);
    }
    out
}

/// The tables of one level and their running totals.
#[derive(Debug)]
pub struct LevelHandlerTables {
    pub tables: Vec<Table>,
    pub total_size: usize,
    pub total_stale_size: u32,
}

impl LevelHandlerTables {
    pub fn new() -> (r: Self)
        ensures
            r.tables@.len() == 0,
            r.total_size == 0,
            r.total_stale_size == 0,
    {
        LevelHandlerTables { tables: Vec::new(), total_size: 0, total_stale_size: 0 }
    }

    /// Installs a table list: sorts by table id on level zero and by
    /// smallest key elsewhere, and recomputes the totals as the sums over
    /// the tables. Fails, leaving the level untouched, exactly when a total
    /// outgrows its field.
    pub fn init(&mut self, level: Level, tables: Vec<Table>) -> (r: Result<
        (),
        crate::errors::DBError,
    >)
        ensures
            r is Ok <==> sum_sizes(tables@) <= usize::MAX && sum_stales(tables@) <= u32::MAX,
            r is Err ==> *final(self) == *old(self),
            r is Ok ==> ({
                &&& final(self).tables@.to_multiset() == tables@.to_multiset()
                &&& final(self).tables@.len() == tables@.len()
                &&& (level.0 == 0 ==> tables_sorted_by_id(final(self).tables@))
                &&& (level.0 != 0 ==> tables_sorted_by_smallest(final(self).tables@))
                &&& final(self).total_size == sum_sizes(tables@)
                &&& final(self).total_stale_size == sum_stales(tables@)
            }),
    {
        let (total_size, total_stale_size) = match compute_totals(&tables) {
            Ok(t) => t,
            Err(e) => {
                return Err(e);
            },
        };
        let sorted = sort_tables(tables, level.0 == 0);
        self.tables = sorted;
        self.total_size = total_size;
        self.total_stale_size = total_stale_size;
        Ok(())
    }
}

/// Some listed id is this one.
pub open spec fn id_in(ids: Seq<u64>, id: u64) -> bool {
    exists|i: int| 0 <= i < ids.len() && ids[i] == id
}

/// Whether the id occurs in the list.
pub fn id_in_vec(ids: &Vec<u64>, id: u64) -> (r: bool)
    ensures
        r == id_in(ids@, id),
{
    let mut i: usize = 0;
    while i < ids.len()
        invariant
            i <= ids@.len(),
            forall|x: int| 0 <= x < i ==> ids@[x] != id,
        decreases ids@.len() - i,
    {
        if ids[i] == id {
            return true;
        }
        i = i + 1;
    }
    false
}

/// The tables whose ids are not listed, in their original order.
pub open spec fn filter_tables(ts: Seq<Table>, ids: Seq<u64>) -> Seq<Table>
    decreases ts.len(),
{
    if ts.len() == 0 {
        Seq::empty()
    } else {
        let rest = filter_tables(ts.drop_last(), ids);
        if id_in(ids, ts.last().table_id) {
            rest
        } else {
            rest.push(ts.last())
        }
    }
}

/// Removes the tables with the given ids, keeping order; moves the rest.
fn remove_tables_by_id(tables: Vec<Table>, ids: &Vec<u64>) -> (r: Vec<Table>)
    ensures
        r@ == filter_tables(tables@, ids@),
{
    let ghost orig = tables@;
    let mut stack = tables;
    let mut reversed: Vec<Table> = Vec::new();
    loop
        invariant
            reversed@.len() + stack@.len() == orig.len(),
            forall|x: int| 0 <= x < stack@.len() ==> stack@[x] == orig[x],
            forall|x: int|
                0 <= x < reversed@.len() ==> reversed@[x] == orig[orig.len() - 1 - x],
        ensures
            stack@.len() == 0,
            reversed@.len() == orig.len(),
            forall|x: int|
                0 <= x < reversed@.len() ==> reversed@[x] == orig[orig.len() - 1 - x],
        decreases stack@.len(),
    {
        match stack.pop() {
            None => {
                break ;
            },
            Some(t) => {
                reversed.push(t);
            },
        }
    }
    let mut kept: Vec<Table> = Vec::new();
    let ghost mut consumed: int = 0;
    loop
        invariant
            0 <= consumed <= orig.len(),
            reversed@.len() == orig.len() - consumed,
            forall|x: int|
                0 <= x < reversed@.len() ==> reversed@[x] == orig[orig.len() - 1 - x],
            kept@ == filter_tables(orig.subrange(0, consumed), ids@),
        ensures
            reversed@.len() == 0,
            consumed == orig.len(),
            kept@ == filter_tables(orig.subrange(0, consumed), ids@),
        decreases reversed@.len(),
    {
        match reversed.pop() {
            None => {
                break ;
            },
            Some(t) => {
                proof {
                    assert(t == orig[consumed]);
                    assert(orig.subrange(0, consumed + 1).drop_last() =~= orig.subrange(
                        0,
                        consumed,
                    ));
                    assert(orig.subrange(0, consumed + 1).last() == orig[consumed]);
                }
                if !id_in_vec(ids, t.table_id) {
                    kept.push(t);
                }
                proof {
                    consumed = consumed + 1;
                }
            },
        }
    }
    proof {
        assert(orig.subrange(0, orig.len() as int) =~= orig);
    }
    kept
}

/// One level of the tree: its number and its tables.
#[derive(Debug)]
pub struct LevelHandler {
    pub level: Level,
    pub handler_tables: LevelHandlerTables,
}

impl LevelHandler {
    pub fn new(level: Level) -> (r: Self)
        ensures
            r.level == level,
            r.handler_tables.tables@.len() == 0,
            r.handler_tables.total_size == 0,
            r.handler_tables.total_stale_size == 0,
    {
        LevelHandler { level, handler_tables: LevelHandlerTables::new() }
    }

    pub fn level(&self) -> (r: Level)
        ensures
            r == self.level,
    {
        self.level
    }

    pub fn get_tables_len(&self) -> (r: usize)
        ensures
            r == self.handler_tables.tables@.len(),
    {
        self.handler_tables.tables.len()
    }

    pub fn get_total_size(&self) -> (r: usize)
        ensures
            r == self.handler_tables.total_size,
    {
        self.handler_tables.total_size
    }

    /// Installs the level's tables.
    pub fn init_tables(&mut self, tables: Vec<Table>) -> (r: Result<(), crate::errors::DBError>)
        ensures
            final(self).level == old(self).level,
            r is Ok <==> sum_sizes(tables@) <= usize::MAX && sum_stales(tables@) <= u32::MAX,
            r is Err ==> *final(self) == *old(self),
            r is Ok ==> ({
                &&& final(self).handler_tables.tables@.to_multiset() == tables@.to_multiset()
                &&& (old(self).level.0 == 0 ==> tables_sorted_by_id(
                    final(self).handler_tables.tables@,
                ))
                &&& (old(self).level.0 != 0 ==> tables_sorted_by_smallest(
                    final(self).handler_tables.tables@,
                ))
                &&& final(self).handler_tables.total_size == sum_sizes(tables@)
                &&& final(self).handler_tables.total_stale_size == sum_stales(tables@)
            }),
    {
        let level = self.level;
        self.handler_tables.init(level, tables)
    }

    /// Replaces the tables a compaction consumed with the ones it built:
    /// drops the old ids, adds the new tables, re-sorts and recomputes the
    /// totals.
    pub fn replace(&mut self, old_ids: &Vec<u64>, new_tables: Vec<Table>) -> (r: Result<
        (),
        crate::errors::DBError,
    >)
        ensures
            final(self).level == old(self).level,
            ({
                let merged = filter_tables(old(self).handler_tables.tables@, old_ids@)
                    + new_tables@;
                &&& (r is Ok <==> sum_sizes(merged) <= usize::MAX && sum_stales(merged)
                    <= u32::MAX)
                &&& (r is Err ==> ({
                    let after = final(self).handler_tables;
                    let before = old(self).handler_tables;
                    after.tables@ == merged && after.total_size == before.total_size
                        && after.total_stale_size == before.total_stale_size
                }))
                &&& (r is Ok ==> {
                    &&& final(self).handler_tables.tables@.to_multiset() == merged.to_multiset()
                    &&& (old(self).level.0 == 0 ==> tables_sorted_by_id(
                        final(self).handler_tables.tables@,
                    ))
                    &&& (old(self).level.0 != 0 ==> tables_sorted_by_smallest(
                        final(self).handler_tables.tables@,
                    ))
                    &&& final(self).handler_tables.total_size == sum_sizes(merged)
                    &&& final(self).handler_tables.total_stale_size == sum_stales(merged)
                })
            }),
    {
        let mut tables: Vec<Table> = Vec::new();
        core::mem::swap(&mut self.handler_tables.tables, &mut tables);
        let mut merged = remove_tables_by_id(tables, old_ids);
        let ghost filtered = merged@;
        let mut incoming = new_tables;
        let ghost new_seq = incoming@;
        let mut rev: Vec<Table> = Vec::new();
        loop
            invariant
                rev@.len() + incoming@.len() == new_seq.len(),
                forall|x: int| 0 <= x < incoming@.len() ==> incoming@[x] == new_seq[x],
                forall|x: int|
                    0 <= x < rev@.len() ==> rev@[x] == new_seq[new_seq.len() - 1 - x],
            ensures
                incoming@.len() == 0,
                rev@.len() == new_seq.len(),
                forall|x: int|
                    0 <= x < rev@.len() ==> rev@[x] == new_seq[new_seq.len() - 1 - x],
            decreases incoming@.len(),
        {
            match incoming.pop() {
                None => {
                    break ;
                },
                Some(t) => {
                    rev.push(t);
                },
            }
        }
        let ghost mut taken: int = 0;
        loop
            invariant
                0 <= taken <= new_seq.len(),
                rev@.len() == new_seq.len() - taken,
                forall|x: int|
                    0 <= x < rev@.len() ==> rev@[x] == new_seq[new_seq.len() - 1 - x],
                merged@ == filtered + new_seq.subrange(0, taken),
            ensures
                rev@.len() == 0,
                taken == new_seq.len(),
                merged@ == filtered + new_seq.subrange(0, taken),
            decreases rev@.len(),
        {
            match rev.pop() {
                None => {
                    break ;
                },
                Some(t) => {
                    proof {
                        assert(t == new_seq[taken]);
                    }
                    merged.push(t);
                    proof {
                        assert(merged@ =~= filtered + new_seq.subrange(0, taken + 1));
                        taken = taken + 1;
                    }
                },
            }
        }
        proof {
            assert(new_seq.subrange(0, new_seq.len() as int) =~= new_seq);
            assert(merged@ == filtered + new_seq);
        }
        match compute_totals(&merged) {
            Ok((total_size, total_stale_size)) => {
                let level = self.level;
                let sorted = sort_tables(merged, level.0 == 0);
                self.handler_tables.tables = sorted;
                self.handler_tables.total_size = total_size;
                self.handler_tables.total_stale_size = total_stale_size;
                Ok(())
            },
            Err(e) => {
                // A total outgrew its field; keep the merged list in place
                // so nothing is lost, with the totals untouched.
                self.handler_tables.tables = merged;
                Err(e)
            },
        }
    }

    /// Removes the given tables from the level, keeping the survivors in
    /// their order, and recomputes the totals as sums. A totals overflow
    /// fails, leaving the filtered list installed with the totals untouched.
    pub fn delete(&mut self, del_ids: &Vec<u64>) -> (r: Result<(), crate::errors::DBError>)
        ensures
            final(self).level == old(self).level,
            ({
                let kept = filter_tables(old(self).handler_tables.tables@, del_ids@);
                &&& (r is Ok <==> sum_sizes(kept) <= usize::MAX && sum_stales(kept) <= u32::MAX)
                &&& final(self).handler_tables.tables@ == kept
                &&& (r is Ok ==> final(self).handler_tables.total_size == sum_sizes(kept)
                    && final(self).handler_tables.total_stale_size == sum_stales(kept))
                &&& (r is Err ==> ({
                    let after = final(self).handler_tables;
                    let before = old(self).handler_tables;
                    after.total_size == before.total_size && after.total_stale_size
                        == before.total_stale_size
                }))
            }),
    {
        let mut tables: Vec<Table> = Vec::new();
        core::mem::swap(&mut self.handler_tables.tables, &mut tables);
        let kept = remove_tables_by_id(tables, del_ids);
        match compute_totals(&kept) {
            Ok((total_size, total_stale_size)) => {
                self.handler_tables.tables = kept;
                self.handler_tables.total_size = total_size;
                self.handler_tables.total_stale_size = total_stale_size;
                Ok(())
            },
            Err(e) => {
                self.handler_tables.tables = kept;
                Err(e)
            },
        }
    }

    /// Checks the level's ordering invariant: above level zero, each table
    /// is internally ordered and ends strictly before the next begins.
    /// Table ranges are checked pairwise from the second table on, as the
    /// level is grown.
    pub fn validate(&self) -> (r: bool)
        ensures
            r == (self.level.0 == 0 || validate_ok(self.handler_tables.tables@)),
    {
        if self.level.0 == 0 {
            return true;
        }
        let tables = &self.handler_tables.tables;
        let n = tables.len();
        let mut j: usize = 1;
        while j < n
            invariant
                self.level.0 != 0,
                tables@ == self.handler_tables.tables@,
                1 <= j,
                n == tables@.len(),
                j <= n || n == 0,
                forall|x: int|
                    1 <= x < j ==> keyts_lt(
                        (#[trigger] tables@[x - 1]).biggest.key@,
                        tables@[x - 1].biggest.txn_ts.0,
                        tables@[x].smallest.key@,
                        tables@[x].smallest.txn_ts.0,
                    ),
                forall|x: int|
                    1 <= x < j ==> keyts_le(
                        (#[trigger] tables@[x]).smallest.key@,
                        tables@[x].smallest.txn_ts.0,
                        tables@[x].biggest.key@,
                        tables@[x].biggest.txn_ts.0,
                    ),
            decreases n - j,
        {
            let pre_biggest = &tables[j - 1].biggest;
            let now_smallest = &tables[j].smallest;
            let ord = KeyTs::cmp(pre_biggest, now_smallest);
            if !matches!(ord, core::cmp::Ordering::Less) {
                proof {
                    assert(!validate_ok(tables@)) by {
                        if validate_ok(tables@) {
                            assert(keyts_lt(
                                tables@[j - 1].biggest.key@,
                                tables@[j - 1].biggest.txn_ts.0,
                                tables@[j as int].smallest.key@,
                                tables@[j as int].smallest.txn_ts.0,
                            ));
                        }
                    }
                }
                return false;
            }
            let now_biggest = &tables[j].biggest;
            let intra = KeyTs::cmp(now_smallest, now_biggest);
            if matches!(intra, core::cmp::Ordering::Greater) {
                proof {
                    assert(!validate_ok(tables@)) by {
                        if validate_ok(tables@) {
                            assert(keyts_le(
                                tables@[j as int].smallest.key@,
                                tables@[j as int].smallest.txn_ts.0,
                                tables@[j as int].biggest.key@,
                                tables@[j as int].biggest.txn_ts.0,
                            ));
                        }
                    }
                }
                return false;
            }
            j = j + 1;
        }
        true
    }
}

/// What `validate` checks above level zero: adjacent tables in order and,
/// from the second table on, each table internally ordered.
pub open spec fn validate_ok(ts: Seq<Table>) -> bool {
    &&& forall|x: int|
        1 <= x < ts.len() ==> keyts_lt(
            (#[trigger] ts[x - 1]).biggest.key@,
            ts[x - 1].biggest.txn_ts.0,
            ts[x].smallest.key@,
            ts[x].smallest.txn_ts.0,
        )
    &&& forall|x: int|
        1 <= x < ts.len() ==> keyts_le(
            (#[trigger] ts[x]).smallest.key@,
            ts[x].smallest.txn_ts.0,
            ts[x].biggest.key@,
            ts[x].biggest.txn_ts.0,
        )
}

/// Binary search over a level's tables by their biggest key, against a
/// serialized key. `Ok` carries an index whose biggest key equals the
/// target; `Err` carries where such a table would sit.
pub fn binary_search_biggest(tables: &Vec<Table>, value: &[u8]) -> (r: Result<usize, usize>)
    requires
        level_tables_wf(tables@),
    ensures
        ({
            let vk = crate::kv::keyts_parse_key(value@);
            let vt = crate::kv::keyts_parse_ts(value@);
            match r {
                Ok(i) => i < tables@.len() && keyts_cmp(
                    tables@[i as int].biggest.key@,
                    tables@[i as int].biggest.txn_ts.0,
                    vk,
                    vt,
                ) == core::cmp::Ordering::Equal,
                Err(i) => {
                    &&& i <= tables@.len()
                    &&& forall|x: int|
                        0 <= x < i ==> keyts_lt(
                            (#[trigger] tables@[x]).biggest.key@,
                            tables@[x].biggest.txn_ts.0,
                            vk,
                            vt,
                        )
                    &&& forall|x: int|
                        i <= x < tables@.len() ==> keyts_lt(
                            vk,
                            vt,
                            (#[trigger] tables@[x]).biggest.key@,
                            tables@[x].biggest.txn_ts.0,
                        )
                },
            }
        }),
{
    let target = KeyTs::from_slice(value);
    proof {
        lemma_biggest_increasing(tables@);
    }
    let mut left: usize = 0;
    let mut right: usize = tables.len();
    while left < right
        invariant
            left <= right <= tables@.len(),
            level_tables_wf(tables@),
            target.key@ == crate::kv::keyts_parse_key(value@),
            target.txn_ts.0 == crate::kv::keyts_parse_ts(value@),
            forall|x: int|
                0 <= x < left ==> keyts_lt(
                    (#[trigger] tables@[x]).biggest.key@,
                    tables@[x].biggest.txn_ts.0,
                    target.key@,
                    target.txn_ts.0,
                ),
            forall|x: int|
                right <= x < tables@.len() ==> keyts_lt(
                    target.key@,
                    target.txn_ts.0,
                    (#[trigger] tables@[x]).biggest.key@,
                    tables@[x].biggest.txn_ts.0,
                ),
        decreases right - left,
    {
        let mid = left + (right - left) / 2;
        let ord = KeyTs::cmp(&tables[mid].biggest, &target);
        match ord {
            core::cmp::Ordering::Less => {
                proof {
                    assert forall|x: int| 0 <= x < mid + 1 implies keyts_lt(
                        (#[trigger] tables@[x]).biggest.key@,
                        tables@[x].biggest.txn_ts.0,
                        target.key@,
                        target.txn_ts.0,
                    ) by {
                        if x < mid {
                            lemma_biggest_increasing(tables@);
                            crate::kv::lemma_keyts_order_total(
                                tables@[x].biggest.key@,
                                tables@[x].biggest.txn_ts.0,
                                tables@[mid as int].biggest.key@,
                                tables@[mid as int].biggest.txn_ts.0,
                                target.key@,
                                target.txn_ts.0,
                            );
                        }
                    }
                }
                left = mid + 1;
            },
            core::cmp::Ordering::Greater => {
                proof {
                    assert forall|x: int| mid <= x < tables@.len() implies keyts_lt(
                        target.key@,
                        target.txn_ts.0,
                        (#[trigger] tables@[x]).biggest.key@,
                        tables@[x].biggest.txn_ts.0,
                    ) by {
                        if x > mid {
                            lemma_biggest_increasing(tables@);
                            crate::kv::lemma_keyts_order_total(
                                target.key@,
                                target.txn_ts.0,
                                tables@[mid as int].biggest.key@,
                                tables@[mid as int].biggest.txn_ts.0,
                                tables@[x].biggest.key@,
                                tables@[x].biggest.txn_ts.0,
                            );
                        }
                        crate::kv::lemma_keyts_refl_nlt(
                            target.key@,
                            target.txn_ts.0,
                            tables@[mid as int].biggest.key@,
                            tables@[mid as int].biggest.txn_ts.0,
                        );
                        crate::codec::lemma_lex_cmp_antisym(
                            target.key@,
                            tables@[mid as int].biggest.key@,
                        );
                        crate::codec::lemma_lex_cmp_eq(target.key@, tables@[mid as int].biggest.key@);
                        crate::codec::lemma_lex_cmp_eq(tables@[mid as int].biggest.key@, target.key@);
                        crate::codec::lemma_lex_cmp_antisym(
                            tables@[mid as int].biggest.key@,
                            target.key@,
                        );
                    }
                }
                right = mid;
            },
            core::cmp::Ordering::Equal => {
                return Ok(mid);
            },
        }
    }
    Err(left)
}

/// Above level zero, the biggest keys strictly increase with the index.
pub proof fn lemma_biggest_increasing(ts: Seq<Table>)
    requires
        level_tables_wf(ts),
    ensures
        forall|i: int, j: int|
            0 <= i < j < ts.len() ==> keyts_lt(
                (#[trigger] ts[i]).biggest.key@,
                ts[i].biggest.txn_ts.0,
                (#[trigger] ts[j]).biggest.key@,
                ts[j].biggest.txn_ts.0,
            ),
{
    lemma_level_wf_pairwise(ts);
    assert forall|i: int, j: int| 0 <= i < j < ts.len() implies keyts_lt(
        (#[trigger] ts[i]).biggest.key@,
        ts[i].biggest.txn_ts.0,
        (#[trigger] ts[j]).biggest.key@,
        ts[j].biggest.txn_ts.0,
    ) by {
        crate::kv::lemma_keyts_order_total(
            ts[i].biggest.key@,
            ts[i].biggest.txn_ts.0,
            ts[j].smallest.key@,
            ts[j].smallest.txn_ts.0,
            ts[j].biggest.key@,
            ts[j].biggest.txn_ts.0,
        );
    }
}

} // verus!
