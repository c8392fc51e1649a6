//! Compaction planning: key ranges and their overlap tests, the per-level
//! reservation board, target sizes, priority scoring, and the merge filter
//! that decides which versions survive a compaction.

use vstd::prelude::*;

use crate::kv::keyts_le;
use crate::kv::keyts_lt;
use crate::kv::Entry;
use crate::kv::KeyTs;
use crate::kv::TxnTs;
use crate::level::Level;
use crate::level::LevelHandler;
use crate::level::LevelHandlerTables;
use crate::level::Table;

verus! {

// ---------------------------------------------------------------------------
// Key ranges
// ---------------------------------------------------------------------------

/// A key range used by compaction; `inf` dominates every overlap test.
#[derive(Debug)]
pub struct KeyTsRange {
    pub left: KeyTs,
    pub right: KeyTs,
    pub inf: bool,
}

impl Clone for KeyTsRange {
    fn clone(&self) -> (r: Self)
        ensures
            range_fields_eq(r, *self),
    {
        KeyTsRange { left: self.left.clone(), right: self.right.clone(), inf: self.inf }
    }
}

/// The two ranges hold the same bounds.
pub open spec fn range_fields_eq(a: KeyTsRange, b: KeyTsRange) -> bool {
    &&& a.left.key@ == b.left.key@
    &&& a.left.txn_ts == b.left.txn_ts
    &&& a.right.key@ == b.right.key@
    &&& a.right.txn_ts == b.right.txn_ts
    &&& a.inf == b.inf
}

/// The empty range: both bounds unset and not infinite.
pub open spec fn range_is_empty(r: KeyTsRange) -> bool {
    &&& r.left.key@.len() == 0
    &&& r.left.txn_ts.0 == 0
    &&& r.right.key@.len() == 0
    &&& r.right.txn_ts.0 == 0
    &&& !r.inf
}

/// Overlap: an empty range is overlapped by anything, overlaps nothing,
/// and an infinite range overlaps everything else.
pub open spec fn range_overlaps(s: KeyTsRange, t: KeyTsRange) -> bool {
    if range_is_empty(s) {
        true
    } else if range_is_empty(t) {
        false
    } else if s.inf || t.inf {
        true
    } else if keyts_lt(t.right.key@, t.right.txn_ts.0, s.left.key@, s.left.txn_ts.0) || keyts_lt(
        s.right.key@,
        s.right.txn_ts.0,
        t.left.key@,
        t.left.txn_ts.0,
    ) {
        false
    } else {
        true
    }
}

impl Default for KeyTsRange {
    fn default() -> (r: Self)
        ensures
            range_is_empty(r),
    {
        KeyTsRange { left: KeyTs::new(Vec::new(), TxnTs(0)), right: KeyTs::new(Vec::new(), TxnTs(0)), inf: false }
    }
}

impl KeyTsRange {
    /// The range that overlaps everything.
    pub fn inf_default() -> (r: Self)
        ensures
            r.left.key@.len() == 0,
            r.right.key@.len() == 0,
            r.inf,
    {
        KeyTsRange {
            left: KeyTs::new(Vec::new(), TxnTs(0)),
            right: KeyTs::new(Vec::new(), TxnTs(0)),
            inf: true,
        }
    }

    pub fn is_empty(&self) -> (r: bool)
        ensures
            r == range_is_empty(*self),
    {
        self.left.is_empty() && self.right.is_empty() && !self.inf
    }

    /// Whether the two ranges overlap.
    pub fn is_overlaps_with(&self, target: &KeyTsRange) -> (r: bool)
        ensures
            r == range_overlaps(*self, *target),
    {
        if self.is_empty() {
            return true;
        }
        if target.is_empty() {
            return false;
        }
        if self.inf || target.inf {
            return true;
        }
        let t_right_vs_s_left = KeyTs::cmp(&target.right, &self.left);
        if matches!(t_right_vs_s_left, core::cmp::Ordering::Less) {
            return false;
        }
        let s_right_vs_t_left = KeyTs::cmp(&self.right, &target.left);
        if matches!(s_right_vs_t_left, core::cmp::Ordering::Less) {
            return false;
        }
        true
    }

    /// Widens this range to cover the other.
    pub fn extend_borrow(&mut self, other: &KeyTsRange)
        ensures
            range_is_empty(*other) ==> *final(self) == *old(self),
            !range_is_empty(*other) && range_is_empty(*old(self)) ==> range_fields_eq(
                *final(self),
                *other,
            ),
            !range_is_empty(*other) && !range_is_empty(*old(self)) ==> ({
                &&& (if old(self).left.key@.len() == 0 && old(self).left.txn_ts.0 == 0
                    || keyts_lt(
                    other.left.key@,
                    other.left.txn_ts.0,
                    old(self).left.key@,
                    old(self).left.txn_ts.0,
                ) {
                    final(self).left.key@ == other.left.key@ && final(self).left.txn_ts
                        == other.left.txn_ts
                } else {
                    final(self).left.key@ == old(self).left.key@ && final(self).left.txn_ts == old(
                        self,
                    ).left.txn_ts
                })
                &&& (if old(self).right.key@.len() == 0 && old(self).right.txn_ts.0 == 0
                    || keyts_lt(
                    old(self).right.key@,
                    old(self).right.txn_ts.0,
                    other.right.key@,
                    other.right.txn_ts.0,
                ) {
                    final(self).right.key@ == other.right.key@ && final(self).right.txn_ts
                        == other.right.txn_ts
                } else {
                    final(self).right.key@ == old(self).right.key@ && final(self).right.txn_ts
                        == old(self).right.txn_ts
                })
                &&& final(self).inf == (old(self).inf || other.inf)
            }),
    {
        if other.is_empty() {
            return ;
        }
        if self.is_empty() {
            self.left = other.left.clone();
            self.right = other.right.clone();
            self.inf = other.inf;
            return ;
        }
        let left_empty = self.left.is_empty();
        let other_left_less = matches!(
            KeyTs::cmp(&other.left, &self.left),
            core::cmp::Ordering::Less
        );
        if left_empty || other_left_less {
            self.left = other.left.clone();
        }
        let right_empty = self.right.is_empty();
        let self_right_less = matches!(
            KeyTs::cmp(&self.right, &other.right),
            core::cmp::Ordering::Less
        );
        if right_empty || self_right_less {
            self.right = other.right.clone();
        }
        if other.inf {
            self.inf = true;
        }
    }

    /// Widens this range to cover the other, consuming it: the left bound
    /// becomes the smaller of the set lefts, the right bound the larger of
    /// the set rights.
    pub fn extend(&mut self, other: KeyTsRange)
        ensures
            range_is_empty(other) ==> *final(self) == *old(self),
            !range_is_empty(other) && range_is_empty(*old(self)) ==> range_fields_eq(
                *final(self),
                other,
            ),
            !range_is_empty(other) && !range_is_empty(*old(self)) ==> ({
                &&& (if old(self).left.key@.len() == 0 && old(self).left.txn_ts.0 == 0
                    || keyts_lt(
                    other.left.key@,
                    other.left.txn_ts.0,
                    old(self).left.key@,
                    old(self).left.txn_ts.0,
                ) {
                    final(self).left.key@ == other.left.key@ && final(self).left.txn_ts
                        == other.left.txn_ts
                } else {
                    final(self).left.key@ == old(self).left.key@ && final(self).left.txn_ts == old(
                        self,
                    ).left.txn_ts
                })
                &&& (if old(self).right.key@.len() == 0 && old(self).right.txn_ts.0 == 0
                    || keyts_lt(
                    old(self).right.key@,
                    old(self).right.txn_ts.0,
                    other.right.key@,
                    other.right.txn_ts.0,
                ) {
                    final(self).right.key@ == other.right.key@ && final(self).right.txn_ts
                        == other.right.txn_ts
                } else {
                    final(self).right.key@ == old(self).right.key@ && final(self).right.txn_ts
                        == old(self).right.txn_ts
                })
                &&& final(self).inf == (old(self).inf || other.inf)
            }),
    {
        self.extend_borrow(&other);
    }

    pub fn set_left(&mut self, left: KeyTs)
        ensures
            final(self).left == left,
            final(self).right == old(self).right,
            final(self).inf == old(self).inf,
    {
        self.left = left;
    }

    pub fn set_right(&mut self, right: KeyTs)
        ensures
            final(self).right == right,
            final(self).left == old(self).left,
            final(self).inf == old(self).inf,
    {
        self.right = right;
    }

    pub fn left(&self) -> (r: &KeyTs)
        ensures
            r == &self.left,
    {
        &self.left
    }

    pub fn right(&self) -> (r: &KeyTs)
        ensures
            r == &self.right,
    {
        &self.right
    }

    /// The range spanned by a list of tables: the least smallest key at the
    /// newest version, through the greatest biggest key at the oldest.
    pub fn from_tables(tables: &Vec<Table>) -> (r: KeyTsRange)
        ensures
            tables@.len() == 0 ==> range_is_empty(r),
            tables@.len() > 0 ==> ({
                &&& !r.inf
                &&& r.left.txn_ts.0 == u64::MAX
                &&& r.right.txn_ts.0 == 0
                &&& exists|i: int|
                    0 <= i < tables@.len() && r.left.key@ == (#[trigger] tables@[i]).smallest.key@
                        && (forall|j: int|
                        0 <= j < tables@.len() ==> keyts_le(
                            tables@[i].smallest.key@,
                            tables@[i].smallest.txn_ts.0,
                            (#[trigger] tables@[j]).smallest.key@,
                            tables@[j].smallest.txn_ts.0,
                        ))
                &&& exists|i: int|
                    0 <= i < tables@.len() && r.right.key@ == (#[trigger] tables@[i]).biggest.key@
                        && (forall|j: int|
                        0 <= j < tables@.len() ==> keyts_le(
                            (#[trigger] tables@[j]).biggest.key@,
                            tables@[j].biggest.txn_ts.0,
                            tables@[i].biggest.key@,
                            tables@[i].biggest.txn_ts.0,
                        ))
            }),
    {
        if tables.len() == 0 {
            return KeyTsRange {
                left: KeyTs::new(Vec::new(), TxnTs(0)),
                right: KeyTs::new(Vec::new(), TxnTs(0)),
                inf: false,
            };
        }
        let mut smallest: usize = 0;
        let mut biggest: usize = 0;
        let mut i: usize = 1;
        proof {
            crate::kv::lemma_keyts_refl_nlt(
                tables@[0].smallest.key@,
                tables@[0].smallest.txn_ts.0,
                tables@[0].smallest.key@,
                tables@[0].smallest.txn_ts.0,
            );
            crate::kv::lemma_keyts_refl_nlt(
                tables@[0].biggest.key@,
                tables@[0].biggest.txn_ts.0,
                tables@[0].biggest.key@,
                tables@[0].biggest.txn_ts.0,
            );
        }
        while i < tables.len()
            invariant
                smallest < i,
                biggest < i,
                i <= tables@.len(),
                forall|j: int|
                    0 <= j < i ==> keyts_le(
                        tables@[smallest as int].smallest.key@,
                        tables@[smallest as int].smallest.txn_ts.0,
                        (#[trigger] tables@[j]).smallest.key@,
                        tables@[j].smallest.txn_ts.0,
                    ),
                forall|j: int|
                    0 <= j < i ==> keyts_le(
                        (#[trigger] tables@[j]).biggest.key@,
                        tables@[j].biggest.txn_ts.0,
                        tables@[biggest as int].biggest.key@,
                        tables@[biggest as int].biggest.txn_ts.0,
                    ),
            decreases tables@.len() - i,
        {
            let ghost old_small = smallest as int;
            let small_less = matches!(
                KeyTs::cmp(&tables[i].smallest, &tables[smallest].smallest),
                core::cmp::Ordering::Less
            );
            if small_less {
                smallest = i;
            }
            proof {
                crate::kv::lemma_keyts_refl_nlt(
                    tables@[i as int].smallest.key@,
                    tables@[i as int].smallest.txn_ts.0,
                    tables@[old_small].smallest.key@,
                    tables@[old_small].smallest.txn_ts.0,
                );
                if small_less {
                    assert forall|j: int| 0 <= j < i + 1 implies keyts_le(
                        tables@[smallest as int].smallest.key@,
                        tables@[smallest as int].smallest.txn_ts.0,
                        (#[trigger] tables@[j]).smallest.key@,
                        tables@[j].smallest.txn_ts.0,
                    ) by {
                        if j < i {
                            crate::kv::lemma_keyts_order_total(
                                tables@[i as int].smallest.key@,
                                tables@[i as int].smallest.txn_ts.0,
                                tables@[old_small].smallest.key@,
                                tables@[old_small].smallest.txn_ts.0,
                                tables@[j].smallest.key@,
                                tables@[j].smallest.txn_ts.0,
                            );
                        }
                    }
                }
            }
            let ghost old_big = biggest as int;
            let big_greater = matches!(
                KeyTs::cmp(&tables[i].biggest, &tables[biggest].biggest),
                core::cmp::Ordering::Greater
            );
            if big_greater {
                biggest = i;
            }
            proof {
                crate::kv::lemma_keyts_refl_nlt(
                    tables@[old_big].biggest.key@,
                    tables@[old_big].biggest.txn_ts.0,
                    tables@[i as int].biggest.key@,
                    tables@[i as int].biggest.txn_ts.0,
                );
                crate::kv::lemma_keyts_refl_nlt(
                    tables@[i as int].biggest.key@,
                    tables@[i as int].biggest.txn_ts.0,
                    tables@[old_big].biggest.key@,
                    tables@[old_big].biggest.txn_ts.0,
                );
                crate::codec::lemma_lex_cmp_antisym(
                    tables@[i as int].biggest.key@,
                    tables@[old_big].biggest.key@,
                );
                crate::codec::lemma_lex_cmp_antisym(
                    tables@[old_big].biggest.key@,
                    tables@[i as int].biggest.key@,
                );
                crate::codec::lemma_lex_cmp_eq(
                    tables@[i as int].biggest.key@,
                    tables@[old_big].biggest.key@,
                );
                crate::codec::lemma_lex_cmp_eq(
                    tables@[old_big].biggest.key@,
                    tables@[i as int].biggest.key@,
                );
                if big_greater {
                    assert forall|j: int| 0 <= j < i + 1 implies keyts_le(
                        (#[trigger] tables@[j]).biggest.key@,
                        tables@[j].biggest.txn_ts.0,
                        tables@[biggest as int].biggest.key@,
                        tables@[biggest as int].biggest.txn_ts.0,
                    ) by {
                        if j < i {
                            crate::kv::lemma_keyts_order_total(
                                tables@[j].biggest.key@,
                                tables@[j].biggest.txn_ts.0,
                                tables@[old_big].biggest.key@,
                                tables@[old_big].biggest.txn_ts.0,
                                tables@[i as int].biggest.key@,
                                tables@[i as int].biggest.txn_ts.0,
                            );
                        }
                    }
                }
            }
            i = i + 1;
        }
        let left_key = crate::codec::copy_slice(tables[smallest].smallest.key.as_slice());
        let right_key = crate::codec::copy_slice(tables[biggest].biggest.key.as_slice());
        KeyTsRange {
            left: KeyTs::new(left_key, TxnTs(u64::MAX)),
            right: KeyTs::new(right_key, TxnTs(0)),
            inf: false,
        }
    }

    /// The range one table spans.
    pub fn from_table(t: &Table) -> (r: KeyTsRange)
        ensures
            r.left.key@ == t.smallest.key@,
            r.left.txn_ts.0 == u64::MAX,
            r.right.key@ == t.biggest.key@,
            r.right.txn_ts.0 == 0,
            !r.inf,
    {
        KeyTsRange {
            left: KeyTs::new(crate::codec::copy_slice(t.smallest.key.as_slice()), TxnTs(u64::MAX)),
            right: KeyTs::new(crate::codec::copy_slice(t.biggest.key.as_slice()), TxnTs(0)),
            inf: false,
        }
    }
}

// ---------------------------------------------------------------------------
// The reservation board
// ---------------------------------------------------------------------------

/// The ranges one level has under compaction, and the bytes credited as
/// leaving it.
#[derive(Debug)]
pub struct LevelCompactStatus {
    pub ranges: Vec<KeyTsRange>,
    pub del_size: i64,
}

impl LevelCompactStatus {
    /// Whether any reserved range overlaps the target.
    pub fn is_overlaps_with(&self, target: &KeyTsRange) -> (r: bool)
        ensures
            r == exists|i: int|
                0 <= i < self.ranges@.len() && range_overlaps(#[trigger] self.ranges@[i], *target),
    {
        let mut i: usize = 0;
        while i < self.ranges.len()
            invariant
                i <= self.ranges@.len(),
                forall|x: int|
                    0 <= x < i ==> !range_overlaps(#[trigger] self.ranges@[x], *target),
            decreases self.ranges@.len() - i,
        {
            if self.ranges[i].is_overlaps_with(target) {
                return true;
            }
            i = i + 1;
        }
        false
    }
}

/// The reservation board: per-level locked ranges and the ids of tables in
/// flight.
#[derive(Debug)]
pub struct CompactStatus {
    pub levels: Vec<LevelCompactStatus>,
    pub tables: Vec<u64>,
}

impl CompactStatus {
    pub fn new(max_levels: usize) -> (r: Self)
        ensures
            r.levels@.len() == max_levels,
            r.tables@.len() == 0,
            forall|i: int| 0 <= i < max_levels ==> (#[trigger] r.levels@[i].ranges@.len()) == 0,
            forall|i: int| 0 <= i < max_levels ==> (#[trigger] r.levels@[i].del_size) == 0,
    {
        let mut levels: Vec<LevelCompactStatus> = Vec::new();
        let mut i: usize = 0;
        while i < max_levels
            invariant
                i <= max_levels,
                levels@.len() == i,
                forall|x: int| 0 <= x < i ==> (#[trigger] levels@[x].ranges@.len()) == 0,
                forall|x: int| 0 <= x < i ==> (#[trigger] levels@[x].del_size) == 0,
            decreases max_levels - i,
        {
            levels.push(LevelCompactStatus { ranges: Vec::new(), del_size: 0 });
            i = i + 1;
        }
        CompactStatus { levels, tables: Vec::new() }
    }

    /// Whether the level already has an overlapping compaction reserved.
    pub fn is_overlaps_with(&self, level: Level, target: &KeyTsRange) -> (r: bool)
        requires
            (level.0 as int) < self.levels@.len(),
        ensures
            r == exists|i: int|
                0 <= i < self.levels@[level.0 as int].ranges@.len() && range_overlaps(
                    #[trigger] self.levels@[level.0 as int].ranges@[i],
                    *target,
                ),
    {
        self.levels[level.0 as usize].is_overlaps_with(target)
    }

    /// The bytes credited as leaving the level.
    pub fn del_size(&self, level: Level) -> (r: i64)
        requires
            (level.0 as int) < self.levels@.len(),
        ensures
            r == self.levels@[level.0 as int].del_size,
    {
        self.levels[level.0 as usize].del_size
    }

    /// Reserves a range on a level.
    pub fn push(&mut self, level: Level, range: KeyTsRange)
        requires
            (level.0 as int) < old(self).levels@.len(),
        ensures
            final(self).levels@.len() == old(self).levels@.len(),
            final(self).levels@[level.0 as int].ranges@ == old(self).levels@[
                level.0 as int
            ].ranges@.push(range),
            final(self).levels@[level.0 as int].del_size == old(self).levels@[
                level.0 as int
            ].del_size,
            forall|x: int|
                0 <= x < old(self).levels@.len() && x != level.0 as int ==> final(self).levels@[x]
                    == old(self).levels@[x],
            final(self).tables == old(self).tables,
    {
        let idx = level.0 as usize;
        let mut taken = LevelCompactStatus { ranges: Vec::new(), del_size: 0 };
        core::mem::swap(&mut self.levels[idx], &mut taken);
        taken.ranges.push(range);
        core::mem::swap(&mut self.levels[idx], &mut taken);
    }
}

// ---------------------------------------------------------------------------
// Target sizes
// ---------------------------------------------------------------------------

/// Sizing of the levels, as compaction planning consumes it.
pub struct LevelConfig {
    /// The soft cap of the base level.
    pub base_level_size: usize,
    /// Each level's target is this many times the next one's.
    pub level_size_multiplier: usize,
    /// Table files grow by this factor below the base level.
    pub table_size_multiplier: usize,
    /// The file budget of level zero.
    pub memtable_size: usize,
    /// The base table file size.
    pub table_size: usize,
    /// Level zero's score reaches one at this many tables.
    pub num_level_zero_tables: usize,
    /// How many compaction workers run.
    pub num_compactors: usize,
    /// Whether the last level may be compacted into itself.
    pub lmax_compaction: bool,
}

/// `sz` divided by `mult`, `k` times over.
pub open spec fn div_chain(sz: int, mult: int, k: int) -> int
    decreases k,
{
    if k <= 0 {
        sz
    } else {
        div_chain(sz, mult, k - 1) / mult
    }
}

/// `sz` multiplied by `mult`, `k` times over.
pub open spec fn mul_chain(sz: int, mult: int, k: int) -> int
    decreases k,
{
    if k <= 0 {
        sz
    } else {
        mul_chain(sz, mult, k - 1) * mult
    }
}

proof fn lemma_mul_chain_mono(sz: int, mult: int, k1: int, k2: int)
    requires
        sz >= 0,
        mult >= 1,
        0 <= k1 <= k2,
    ensures
        mul_chain(sz, mult, k1) <= mul_chain(sz, mult, k2),
        mul_chain(sz, mult, k1) >= 0,
    decreases k2,
{
    if k2 > 0 {
        if k1 == k2 {
            lemma_mul_chain_mono(sz, mult, k1 - 1, k2 - 1);
            assert(mul_chain(sz, mult, k2 - 1) * mult >= mul_chain(sz, mult, k2 - 1) * 1)
                by (nonlinear_arith)
                requires
                    mul_chain(sz, mult, k2 - 1) >= 0,
                    mult >= 1,
            ;
        } else {
            lemma_mul_chain_mono(sz, mult, k1, k2 - 1);
            assert(mul_chain(sz, mult, k2 - 1) * mult >= mul_chain(sz, mult, k2 - 1) * 1)
                by (nonlinear_arith)
                requires
                    mul_chain(sz, mult, k2 - 1) >= 0,
                    mult >= 1,
            ;
        }
    }
}

/// The computed compaction targets: the base level, each level's target
/// size, and each level's table file size.
pub struct CompactTargets {
    pub base_level: Level,
    pub target_size: Vec<usize>,
    pub file_size: Vec<usize>,
}

impl CompactTargets {
    pub fn file_size(&self) -> (r: &Vec<usize>)
        ensures
            r == &self.file_size,
    {
        &self.file_size
    }

    /// Overwrites one level's file budget.
    pub fn file_size_mut(&mut self, i: usize, v: usize)
        requires
            i < old(self).file_size@.len(),
        ensures
            final(self).file_size@ == old(self).file_size@.update(i as int, v),
            final(self).target_size == old(self).target_size,
            final(self).base_level == old(self).base_level,
    {
        self.file_size.set(i, v);
    }
}

/// The phase-one base level: walking up from the bottom, the deepest level
/// whose running target still fits in the base-level budget; zero when none
/// does.
pub open spec fn phase1_base_ok(
    b1: int,
    n: int,
    last_size: int,
    lmult: int,
    base_sz: int,
) -> bool {
    ||| (b1 == 0 && forall|i: int|
        1 <= i < n ==> #[trigger] div_chain(last_size, lmult, n - 1 - i) > base_sz)
    ||| (1 <= b1 < n && div_chain(last_size, lmult, n - 1 - b1) <= base_sz && forall|i: int|
        b1 < i < n ==> #[trigger] div_chain(last_size, lmult, n - 1 - i) > base_sz)
}

/// The phase-three base level: pulled deeper from `b1` through empty
/// levels, stopping at the first non-empty one or the last level.
pub open spec fn pulled_base_ok(b1: int, b3: int, n: int, levels: Seq<LevelHandler>) -> bool {
    &&& b1 <= b3 < n
    &&& forall|l: int| b1 < l <= b3 ==> (#[trigger] levels[l].handler_tables.total_size) == 0
    &&& (b3 == n - 1 || (b3 == b1 && levels[b1].handler_tables.total_size > 0) || levels[b3
        + 1].handler_tables.total_size > 0)
}

/// Computes the compaction targets:
/// each level's target walks down from the last level's size, dividing by
/// the level-size multiplier and never dropping under the base-level
/// budget; file sizes grow by the table-size multiplier below the base
/// level; the base level is pulled deeper through empty levels, and one
/// further when the next level is empty-bound and under its target. When
/// every level's running target exceeds the base budget, the walk leaves
/// the base at level zero.
#[verifier::rlimit(60)]
pub fn level_targets(levels: &Vec<LevelHandler>, cfg: &LevelConfig) -> (r: CompactTargets)
    requires
        1 <= levels@.len() < 256,
        cfg.level_size_multiplier >= 1,
        cfg.table_size_multiplier >= 1,
        cfg.base_level_size >= 1,
        mul_chain(
            cfg.table_size as int,
            cfg.table_size_multiplier as int,
            levels@.len() as int,
        ) <= usize::MAX,
    ensures
        ({
            let n = levels@.len() as int;
            let last_size = levels@.last().handler_tables.total_size as int;
            let lmult = cfg.level_size_multiplier as int;
            let base_sz = cfg.base_level_size as int;
            &&& r.target_size@.len() == n
            &&& r.file_size@.len() == n
            &&& forall|i: int|
                1 <= i < n ==> (#[trigger] r.target_size@[i]) as int == if div_chain(
                    last_size,
                    lmult,
                    n - 1 - i,
                ) > base_sz {
                    div_chain(last_size, lmult, n - 1 - i)
                } else {
                    base_sz
                }
            &&& (n >= 1 ==> r.file_size@[0] == cfg.memtable_size)
            &&& exists|b1: int, b3: int|
                {
                    &&& #[trigger] phase1_base_ok(b1, n, last_size, lmult, base_sz)
                    &&& #[trigger] pulled_base_ok(b1, b3, n, levels@)
                    &&& forall|i: int|
                        1 <= i <= b1 && i < n ==> (#[trigger] r.file_size@[i]) == cfg.table_size
                    &&& forall|i: int|
                        b1 < i < n ==> (#[trigger] r.file_size@[i]) as int == mul_chain(
                            cfg.table_size as int,
                            cfg.table_size_multiplier as int,
                            i - b1,
                        )
                    &&& r.base_level.0 as int == if b3 + 1 < n
                        && levels@[b3].handler_tables.total_size == 0 && (levels@[b3
                        + 1].handler_tables.total_size as int) < r.target_size@[b3 + 1] {
                        b3 + 1
                    } else {
                        b3
                    }
                }
        }),
{
    let n = levels.len();
    let ghost last_size = levels@.last().handler_tables.total_size as int;
    let ghost lmult = cfg.level_size_multiplier as int;
    let ghost base_sz = cfg.base_level_size as int;
    let mut target_size: Vec<usize> = Vec::new();
    let mut file_size: Vec<usize> = Vec::new();
    let mut k: usize = 0;
    while k < n
        invariant
            k <= n,
            target_size@.len() == k,
            file_size@.len() == k,
            forall|x: int| 0 <= x < k ==> (#[trigger] target_size@[x]) == 0,
            forall|x: int| 0 <= x < k ==> (#[trigger] file_size@[x]) == 0,
        decreases n - k,
    {
        target_size.push(0);
        file_size.push(0);
        k = k + 1;
    }
    // Walk from the last level upward, shrinking the running target.
    let mut base_level: usize = 0;
    let mut level_size: usize = levels[n - 1].get_total_size();
    let mut i: usize = n - 1;
    while i >= 1
        invariant
            n == levels@.len(),
            1 <= n < 256,
            0 <= i <= n - 1,
            cfg.level_size_multiplier >= 1,
            cfg.base_level_size >= 1,
            last_size == levels@.last().handler_tables.total_size as int,
            lmult == cfg.level_size_multiplier as int,
            base_sz == cfg.base_level_size as int,
            target_size@.len() == n,
            file_size@.len() == n,
            level_size as int == div_chain(last_size, lmult, n - 1 - i),
            forall|x: int|
                i < x < n ==> (#[trigger] target_size@[x]) as int == if div_chain(
                    last_size,
                    lmult,
                    n - 1 - x,
                ) > base_sz {
                    div_chain(last_size, lmult, n - 1 - x)
                } else {
                    base_sz
                },
            forall|x: int| 0 <= x <= i ==> (#[trigger] target_size@[x]) == 0,
            forall|x: int| 0 <= x < n ==> (#[trigger] file_size@[x]) == 0,
            (base_level == 0 && forall|x: int|
                i < x < n ==> #[trigger] div_chain(last_size, lmult, n - 1 - x) > base_sz) || (i
                < base_level && base_level < n && div_chain(
                last_size,
                lmult,
                n - 1 - base_level as int,
            ) <= base_sz && forall|x: int|
                (base_level as int) < x < n ==> #[trigger] div_chain(last_size, lmult, n - 1 - x)
                    > base_sz),
        decreases i,
    {
        let t = if level_size > cfg.base_level_size {
            level_size
        } else {
            cfg.base_level_size
        };
        target_size.set(i, t);
        if base_level == 0 && level_size <= cfg.base_level_size {
            base_level = i;
        }
        level_size = level_size / cfg.level_size_multiplier;
        i = i - 1;
    }
    let ghost b1 = base_level as int;
    proof {
        assert(phase1_base_ok(b1, n as int, last_size, lmult, base_sz));
    }
    // File sizes: the memtable budget at level zero, the base table size
    // through the base level, growing by the multiplier below it.
    let mut table_size: usize = cfg.table_size;
    let mut i: usize = 0;
    while i < n
        invariant
            n == levels@.len(),
            i <= n,
            b1 == base_level as int,
            base_level < n,
            cfg.table_size_multiplier >= 1,
            mul_chain(
                cfg.table_size as int,
                cfg.table_size_multiplier as int,
                n as int,
            ) <= usize::MAX,
            target_size@.len() == n,
            file_size@.len() == n,
            table_size as int == if i as int <= b1 + 1 {
                cfg.table_size as int
            } else {
                mul_chain(cfg.table_size as int, cfg.table_size_multiplier as int, i - 1 - b1)
            },
            forall|x: int|
                0 <= x < i ==> (#[trigger] file_size@[x]) as int == (if x == 0 {
                    cfg.memtable_size as int
                } else if x <= b1 {
                    cfg.table_size as int
                } else {
                    mul_chain(cfg.table_size as int, cfg.table_size_multiplier as int, x - b1)
                }),
            forall|x: int|
                1 <= x < n ==> (#[trigger] target_size@[x]) as int == if div_chain(
                    last_size,
                    lmult,
                    n - 1 - x,
                ) > base_sz {
                    div_chain(last_size, lmult, n - 1 - x)
                } else {
                    base_sz
                },
        decreases n - i,
    {
        if i == 0 {
            file_size.set(i, cfg.memtable_size);
        } else if i <= base_level {
            file_size.set(i, table_size);
        } else {
            proof {
                lemma_mul_chain_mono(
                    cfg.table_size as int,
                    cfg.table_size_multiplier as int,
                    i - b1,
                    n as int,
                );
                lemma_mul_chain_mono(
                    cfg.table_size as int,
                    cfg.table_size_multiplier as int,
                    i - 1 - b1,
                    n as int,
                );
                assert(mul_chain(
                    cfg.table_size as int,
                    cfg.table_size_multiplier as int,
                    i - b1,
                ) == mul_chain(cfg.table_size as int, cfg.table_size_multiplier as int, i - 1 - b1)
                    * cfg.table_size_multiplier);
            }
            table_size = table_size * cfg.table_size_multiplier;
            file_size.set(i, table_size);
        }
        i = i + 1;
    }
    // Pull the base level deeper through empty levels.
    let mut level: usize = base_level;
    let mut stopped = false;
    while level < n && !stopped
        invariant
            n == levels@.len(),
            b1 <= base_level as int,
            base_level as int <= level as int,
            level <= n,
            base_level < n,
            b1 < n,
            0 <= b1,
            forall|l: int|
                b1 < l <= base_level as int ==> (#[trigger] levels@[l].handler_tables.total_size)
                    == 0,
            !stopped ==> base_level as int == if level as int > b1 {
                level - 1
            } else {
                b1
            },
            stopped ==> level < n && levels@[level as int].handler_tables.total_size > 0 && (
            base_level as int == if level as int > b1 {
                level - 1
            } else {
                b1
            }),
        decreases n - level, 1int - (if stopped { 1int } else { 0int }),
    {
        if levels[level].get_total_size() > 0 {
            stopped = true;
        } else {
            base_level = level;
            level = level + 1;
        }
    }
    let ghost b3 = base_level as int;
    // When the base level is empty and the one below it is under target,
    // shift the base one deeper.
    let mut final_base = base_level;
    if base_level + 1 < n {
        let below = levels[base_level + 1].get_total_size();
        if levels[base_level].get_total_size() == 0 && below < target_size[base_level + 1] {
            final_base = base_level + 1;
        }
    }
    let r = CompactTargets { base_level: Level(final_base as u8), target_size, file_size };
    proof {
        assert(b1 <= b3 < n);
        assert(phase1_base_ok(b1, n as int, last_size, lmult, base_sz));
        assert(pulled_base_ok(b1, b3, n as int, levels@));
        assert(forall|i: int|
            1 <= i <= b1 && i < n ==> (#[trigger] r.file_size@[i]) == cfg.table_size);
        assert(forall|i: int|
            b1 < i < n ==> (#[trigger] r.file_size@[i]) as int == mul_chain(
                cfg.table_size as int,
                cfg.table_size_multiplier as int,
                i - b1,
            ));
        assert(r.base_level.0 as int == if b3 + 1 < n && levels@[b3].handler_tables.total_size
            == 0 && (levels@[b3 + 1].handler_tables.total_size as int) < r.target_size@[b3 + 1] {
            b3 + 1
        } else {
            b3
        });
    }
    r
}

// ---------------------------------------------------------------------------
// Priority scoring
// ---------------------------------------------------------------------------

/// Scores are fixed-point numbers with this scale standing for one.
pub const SCORE_SCALE: u128 = 1048576;

/// The floor a next-level score is clamped to when it damps the level
/// above.
pub const MIN_SCORE_FP: u128 = SCORE_SCALE / 100;

/// A level's raw compaction score, scaled: level zero counts tables against
/// its budget, other levels count bytes not already leaving against their
/// target.
pub open spec fn spec_raw_score(
    levels: Seq<LevelHandler>,
    dels: Seq<LevelCompactStatus>,
    cfg: LevelConfig,
    i: int,
) -> int {
    let n = levels.len() as int;
    if i == 0 {
        (levels[0].handler_tables.tables@.len() as int) * (SCORE_SCALE as int) / (
        cfg.num_level_zero_tables as int)
    } else {
        let total = levels[i].handler_tables.total_size as int;
        let del = dels[i].del_size as int;
        let clamped = if del < 0 {
            0
        } else if del > total {
            total
        } else {
            del
        };
        let target = div_chain(
            levels.last().handler_tables.total_size as int,
            cfg.level_size_multiplier as int,
            n - 1 - i,
        );
        (total - clamped) * (SCORE_SCALE as int) / (if target > cfg.base_level_size as int {
            target
        } else {
            cfg.base_level_size as int
        })
    }
}

/// Every level's raw score, as the scorer computes them.
pub open spec fn raw_scores_seq(
    levels: Seq<LevelHandler>,
    dels: Seq<LevelCompactStatus>,
    cfg: LevelConfig,
) -> Seq<u128> {
    Seq::new(levels.len(), |i: int| spec_raw_score(levels, dels, cfg, i) as u128)
}

/// The damping walk over the adjusted scores: from the base level down,
/// a level whose adjusted score is at least one is divided by the next
/// level's score, clamped below at one hundredth, the product saturating.
pub open spec fn damped_scores(
    adjusted: Seq<u128>,
    scores: Seq<u128>,
    pre: int,
    level: int,
    n: int,
) -> Seq<u128>
    decreases n - level,
{
    if level < 0 || level >= n || pre < 0 || pre >= adjusted.len() || level >= adjusted.len()
        || level >= scores.len() {
        adjusted
    } else {
        let next = if adjusted[pre] >= SCORE_SCALE {
            let divisor: u128 = if scores[level] >= MIN_SCORE_FP {
                adjusted[level]
            } else {
                MIN_SCORE_FP
            };
            if divisor > 0 {
                let widened: int = if adjusted[pre] <= u128::MAX / SCORE_SCALE {
                    (adjusted[pre] * SCORE_SCALE) as int
                } else {
                    u128::MAX as int
                };
                adjusted.update(pre, (widened / divisor as int) as u128)
            } else {
                adjusted
            }
        } else {
            adjusted
        };
        damped_scores(next, scores, level, level + 1, n)
    }
}

/// One candidate compaction: the level, its raw and adjusted scores, the
/// prefixes to drop, and the targets it was scored against.
pub struct CompactPriority {
    pub level: Level,
    pub score: u128,
    pub adjusted: u128,
    pub drop_prefixes: Vec<Vec<u8>>,
    pub targets: CompactTargets,
}

impl CompactPriority {
    pub fn level(&self) -> (r: Level)
        ensures
            r == self.level,
    {
        self.level
    }

    pub fn adjusted(&self) -> (r: u128)
        ensures
            r == self.adjusted,
    {
        self.adjusted
    }

    pub fn drop_prefixes(&self) -> (r: &Vec<Vec<u8>>)
        ensures
            r == &self.drop_prefixes,
    {
        &self.drop_prefixes
    }

    pub fn targets(&self) -> (r: &CompactTargets)
        ensures
            r == &self.targets,
    {
        &self.targets
    }

    /// Replaces the targets this priority was scored against.
    pub fn targets_mut(&mut self, targets: CompactTargets)
        ensures
            final(self).targets == targets,
            final(self).level == old(self).level,
            final(self).score == old(self).score,
            final(self).adjusted == old(self).adjusted,
            final(self).drop_prefixes == old(self).drop_prefixes,
    {
        self.targets = targets;
    }
}

/// An element of a sequence with the same multiset came from the original.
proof fn lemma_sorted_elem_origin(pre: Seq<CompactPriority>, sorted: Seq<CompactPriority>, k: int)
    requires
        sorted.to_multiset() == pre.to_multiset(),
        0 <= k < sorted.len(),
    ensures
        exists|x: int| 0 <= x < pre.len() && pre[x] == sorted[k],
{
    let e = sorted[k];
    sorted.to_multiset_ensures();
    pre.to_multiset_ensures();
    assert(sorted.contains(e));
    assert(sorted.to_multiset().count(e) > 0);
    assert(pre.to_multiset().count(e) > 0);
    assert(pre.contains(e));
}

/// Picks the levels worth compacting: every level but the last whose raw
/// score reaches one, ordered by adjusted score descending. A level's
/// adjusted score is damped by a healthy next level. Each returned priority
/// carries its exact raw score.
#[verifier::rlimit(100)]
pub fn pick_compact_levels(
    levels: &Vec<LevelHandler>,
    status: &CompactStatus,
    cfg: &LevelConfig,
) -> (r: Vec<CompactPriority>)
    requires
        2 <= levels@.len() < 256,
        status.levels@.len() >= levels@.len(),
        cfg.level_size_multiplier >= 1,
        cfg.table_size_multiplier >= 1,
        cfg.base_level_size >= 1,
        cfg.num_level_zero_tables >= 1,
        mul_chain(
            cfg.table_size as int,
            cfg.table_size_multiplier as int,
            levels@.len() as int,
        ) <= usize::MAX,
    ensures
        ({
            let n = levels@.len() as int;
            &&& forall|k: int|
                0 <= k < r@.len() ==> ((#[trigger] r@[k].level.0) as int) < n - 1
            &&& forall|k: int|
                0 <= k < r@.len() ==> (#[trigger] r@[k].score) >= SCORE_SCALE
            &&& forall|k: int|
                0 <= k < r@.len() ==> (#[trigger] r@[k].score) as int == spec_raw_score(
                    levels@,
                    status.levels@,
                    *cfg,
                    r@[k].level.0 as int,
                )
            &&& forall|k1: int, k2: int|
                0 <= k1 < k2 < r@.len() ==> (#[trigger] r@[k1].adjusted) >= (#[trigger] r@[
                    k2
                ].adjusted)
            &&& forall|lvl: int|
                0 <= lvl < n - 1 && spec_raw_score(levels@, status.levels@, *cfg, lvl) >= (
                SCORE_SCALE as int) ==> exists|k: int|
                    0 <= k < r@.len() && (#[trigger] r@[k].level.0) as int == lvl
            &&& ({
                let last_size = levels@.last().handler_tables.total_size as int;
                let lmult = cfg.level_size_multiplier as int;
                let base_sz = cfg.base_level_size as int;
                let raw = raw_scores_seq(levels@, status.levels@, *cfg);
                exists|b1: int, b3: int|
                    {
                        &&& #[trigger] phase1_base_ok(b1, n, last_size, lmult, base_sz)
                        &&& #[trigger] pulled_base_ok(b1, b3, n, levels@)
                        &&& ({
                            let next_target = if div_chain(last_size, lmult, n - 1 - (b3 + 1))
                                > base_sz {
                                div_chain(last_size, lmult, n - 1 - (b3 + 1))
                            } else {
                                base_sz
                            };
                            let base = if b3 + 1 < n && levels@[b3].handler_tables.total_size == 0
                                && (levels@[b3 + 1].handler_tables.total_size as int)
                                < next_target {
                                b3 + 1
                            } else {
                                b3
                            };
                            forall|k: int|
                                0 <= k < r@.len() ==> (#[trigger] r@[k].adjusted) == damped_scores(
                                    raw,
                                    raw,
                                    0,
                                    base,
                                    n,
                                )[r@[k].level.0 as int]
                        })
                    }
            })
        }),
{
    broadcast use vstd::seq_lib::group_to_multiset_ensures;

    let n = levels.len();
    let targets = level_targets(levels, cfg);
    // Raw scores, one priority per level.
    let mut scores: Vec<u128> = Vec::new();
    let l0_score: u128 = (levels[0].get_tables_len() as u128) * SCORE_SCALE
        / (cfg.num_level_zero_tables as u128);
    scores.push(l0_score);
    let mut i: usize = 1;
    while i < n
        invariant
            1 <= i <= n,
            n == levels@.len(),
            2 <= n < 256,
            status.levels@.len() >= n,
            cfg.num_level_zero_tables >= 1,
            cfg.level_size_multiplier >= 1,
            cfg.base_level_size >= 1,
            targets.target_size@.len() == n,
            forall|x: int|
                1 <= x < n ==> (#[trigger] targets.target_size@[x]) as int == if div_chain(
                    levels@.last().handler_tables.total_size as int,
                    cfg.level_size_multiplier as int,
                    n - 1 - x,
                ) > cfg.base_level_size as int {
                    div_chain(
                        levels@.last().handler_tables.total_size as int,
                        cfg.level_size_multiplier as int,
                        n - 1 - x,
                    )
                } else {
                    cfg.base_level_size as int
                },
            scores@.len() == i,
            forall|x: int|
                0 <= x < i ==> (#[trigger] scores@[x]) as int == spec_raw_score(
                    levels@,
                    status.levels@,
                    *cfg,
                    x,
                ),
        decreases n - i,
    {
        let total = levels[i].get_total_size();
        let del = status.del_size(Level(i as u8));
        let clamped: usize = if del < 0 {
            0
        } else if del as u128 > total as u128 {
            total
        } else {
            del as usize
        };
        let sz = total - clamped;
        let score: u128 = (sz as u128) * SCORE_SCALE / (targets.target_size[i] as u128);
        scores.push(score);
        i = i + 1;
    }
    // Damp each adjusted score by the next level's, from the base level
    // down, clamping tiny divisors.
    let mut adjusted: Vec<u128> = Vec::new();
    let mut i: usize = 0;
    while i < n
        invariant
            i <= n,
            n == scores@.len(),
            adjusted@.len() == i,
            forall|x: int| 0 <= x < i ==> (#[trigger] adjusted@[x]) == scores@[x],
        decreases n - i,
    {
        adjusted.push(scores[i]);
        i = i + 1;
    }
    let ghost adjusted0 = adjusted@;
    let ghost scores_view = scores@;
    let ghost base0 = targets.base_level.0 as int;
    let mut pre_level: usize = 0;
    let mut level: usize = targets.base_level.0 as usize;
    while level < n
        invariant
            n == scores@.len(),
            n == adjusted@.len(),
            scores_view == scores@,
            pre_level < n || n == 0,
            pre_level <= level,
            damped_scores(adjusted0, scores_view, 0, base0, n as int) == damped_scores(
                adjusted@,
                scores_view,
                pre_level as int,
                level as int,
                n as int,
            ),
        decreases n - level,
    {
        let ghost before = adjusted@;
        if adjusted[pre_level] >= SCORE_SCALE {
            let divisor = if scores[level] >= MIN_SCORE_FP {
                adjusted[level]
            } else {
                MIN_SCORE_FP
            };
            if divisor > 0 {
                let cur = adjusted[pre_level];
                let widened = if cur <= u128::MAX / SCORE_SCALE {
                    cur * SCORE_SCALE
                } else {
                    u128::MAX
                };
                adjusted.set(pre_level, widened / divisor);
            }
        }
        proof {
            assert(damped_scores(before, scores_view, pre_level as int, level as int, n as int)
                == damped_scores(adjusted@, scores_view, level as int, level as int + 1, n as int));
        }
        pre_level = level;
        level = level + 1;
    }
    let ghost walk_final = adjusted@;
    proof {
        assert(damped_scores(walk_final, scores_view, pre_level as int, n as int, n as int)
            == walk_final);
        assert(walk_final == damped_scores(adjusted0, scores_view, 0, base0, n as int));
    }
    // Keep the levels owed a compaction: raw score at least one, never the
    // last level.
    let mut picked: Vec<CompactPriority> = Vec::new();
    let mut i: usize = 0;
    while i < n - 1
        invariant
            i <= n - 1,
            n == levels@.len(),
            2 <= n < 256,
            n == scores@.len(),
            n == adjusted@.len(),
            forall|x: int|
                0 <= x < scores@.len() ==> (#[trigger] scores@[x]) as int == spec_raw_score(
                    levels@,
                    status.levels@,
                    *cfg,
                    x,
                ),
            forall|k: int|
                0 <= k < picked@.len() ==> ((#[trigger] picked@[k].level.0) as int) < i,
            forall|k: int|
                0 <= k < picked@.len() ==> (#[trigger] picked@[k].score) >= SCORE_SCALE,
            forall|k: int|
                0 <= k < picked@.len() ==> (#[trigger] picked@[k].score) == scores@[picked@[
                    k
                ].level.0 as int],
            walk_final == adjusted@,
            forall|k: int|
                0 <= k < picked@.len() ==> (#[trigger] picked@[k].adjusted) == walk_final[picked@[
                    k
                ].level.0 as int],
            forall|lvl: int|
                0 <= lvl < i && scores@[lvl] >= SCORE_SCALE ==> exists|k: int|
                    0 <= k < picked@.len() && (#[trigger] picked@[k].level.0) as int == lvl,
        decreases n - 1 - i,
    {
        let ghost old_picked = picked@;
        if scores[i] >= SCORE_SCALE {
            let t = CompactTargets {
                base_level: targets.base_level,
                target_size: crate::compaction::copy_usizes(&targets.target_size),
                file_size: crate::compaction::copy_usizes(&targets.file_size),
            };
            picked.push(
                CompactPriority {
                    level: Level(i as u8),
                    score: scores[i],
                    adjusted: adjusted[i],
                    drop_prefixes: Vec::new(),
                    targets: t,
                },
            );
            proof {
                assert(picked@[picked@.len() - 1].level.0 as int == i as int);
            }
        }
        proof {
            assert forall|lvl: int|
                0 <= lvl < i + 1 && scores@[lvl] >= SCORE_SCALE implies exists|k: int|
                0 <= k < picked@.len() && (#[trigger] picked@[k].level.0) as int == lvl by {
                if lvl < i {
                    let k = choose|k: int|
                        0 <= k < old_picked.len() && (#[trigger] old_picked[k].level.0) as int
                            == lvl;
                    assert(picked@[k] == old_picked[k]);
                } else {
                    assert(picked@[picked@.len() - 1].level.0 as int == lvl);
                }
            }
        }
        i = i + 1;
    }
    // Sort by adjusted score, largest first.
    let ghost pre_sort = picked@;
    let sorted = sort_priorities_desc(picked);
    proof {
        let raw = raw_scores_seq(levels@, status.levels@, *cfg);
        assert(adjusted0 =~= raw) by {
            assert forall|x: int| 0 <= x < n implies adjusted0[x] == raw[x] by {
                assert(adjusted0[x] == scores_view[x]);
                assert(scores_view[x] as int == spec_raw_score(levels@, status.levels@, *cfg, x));
            }
        }
        assert(scores_view =~= raw) by {
            assert(forall|x: int|
                0 <= x < n ==> scores_view[x] as int == spec_raw_score(
                    levels@,
                    status.levels@,
                    *cfg,
                    x,
                ));
        }
        assert(walk_final == damped_scores(raw, raw, 0, base0, n as int));
        assert forall|k: int|
            0 <= k < sorted@.len() implies (#[trigger] sorted@[k].adjusted) == damped_scores(
            raw,
            raw,
            0,
            base0,
            n as int,
        )[sorted@[k].level.0 as int] by {
            lemma_sorted_elem_origin(pre_sort, sorted@, k);
            let x = choose|x: int| 0 <= x < pre_sort.len() && pre_sort[x] == sorted@[k];
            assert(pre_sort[x].adjusted == walk_final[pre_sort[x].level.0 as int]);
        }
    }
    proof {
        assert forall|lvl: int|
            0 <= lvl < n - 1 && spec_raw_score(levels@, status.levels@, *cfg, lvl) >= (
            SCORE_SCALE as int) implies exists|k: int|
            0 <= k < sorted@.len() && (#[trigger] sorted@[k].level.0) as int == lvl by {
            assert(scores@[lvl] as int == spec_raw_score(levels@, status.levels@, *cfg, lvl));
            assert(scores@[lvl] >= SCORE_SCALE);
            assert(exists|k: int|
                0 <= k < pre_sort.len() && (#[trigger] pre_sort[k].level.0) as int == lvl);
            let x = choose|x: int|
                0 <= x < pre_sort.len() && (#[trigger] pre_sort[x].level.0) as int == lvl;
            let e = pre_sort[x];
            pre_sort.to_multiset_ensures();
            sorted@.to_multiset_ensures();
            assert(pre_sort[x] == e);
            assert(pre_sort.contains(e));
            assert(pre_sort.to_multiset().count(e) > 0);
            assert(sorted@.to_multiset().count(e) > 0);
            assert(sorted@.contains(e));
            let y = choose|y: int| 0 <= y < sorted@.len() && sorted@[y] == e;
            assert(sorted@[y].level.0 as int == lvl);
        }
        assert forall|k: int|
            0 <= k < sorted@.len() implies ((#[trigger] sorted@[k].level.0) as int) < n - 1 by {
            lemma_sorted_elem_origin(pre_sort, sorted@, k);
            let x = choose|x: int| 0 <= x < pre_sort.len() && pre_sort[x] == sorted@[k];
        }
        assert forall|k: int|
            0 <= k < sorted@.len() implies (#[trigger] sorted@[k].score) >= SCORE_SCALE by {
            lemma_sorted_elem_origin(pre_sort, sorted@, k);
            let x = choose|x: int| 0 <= x < pre_sort.len() && pre_sort[x] == sorted@[k];
        }
        assert forall|k: int|
            0 <= k < sorted@.len() implies (#[trigger] sorted@[k].score) as int == spec_raw_score(
            levels@,
            status.levels@,
            *cfg,
            sorted@[k].level.0 as int,
        ) by {
            lemma_sorted_elem_origin(pre_sort, sorted@, k);
            let x = choose|x: int| 0 <= x < pre_sort.len() && pre_sort[x] == sorted@[k];
            assert(pre_sort[x].score == scores@[pre_sort[x].level.0 as int]);
        }
    }
    sorted
}

/// Copies a list of sizes.
pub fn copy_usizes(v: &Vec<usize>) -> (r: Vec<usize>)
    ensures
        r@ == v@,
{
    let mut out: Vec<usize> = Vec::new();
    let mut i: usize = 0;
    while i < v.len()
        invariant
            i <= v@.len(),
            out@ =~= v@.subrange(0, i as int),
        decreases v@.len() - i,
    {
        out.push(v[i]);
        i = i + 1;
    }
    proof {
        assert(out@ =~= v@);
    }
    out
}

/// Sorts priorities by adjusted score, largest first, keeping exactly the
/// given ones.
fn sort_priorities_desc(prios: Vec<CompactPriority>) -> (r: Vec<CompactPriority>)
    ensures
        r@.to_multiset() == prios@.to_multiset(),
        r@.len() == prios@.len(),
        forall|k1: int, k2: int|
            0 <= k1 < k2 < r@.len() ==> (#[trigger] r@[k1].adjusted) >= (#[trigger] r@[
                k2
            ].adjusted),
{
    broadcast use vstd::seq_lib::group_to_multiset_ensures;

    let mut rest = prios;
    let mut out: Vec<CompactPriority> = Vec::new();
    let ghost orig_ms = rest@.to_multiset();
    while rest.len() > 0
        invariant
            out@.to_multiset().add(rest@.to_multiset()) =~= orig_ms,
            out@.len() + rest@.len() == orig_ms.len(),
            forall|k1: int, k2: int|
                0 <= k1 < k2 < out@.len() ==> (#[trigger] out@[k1].adjusted) >= (#[trigger] out@[
                    k2
                ].adjusted),
            forall|i: int, j: int|
                0 <= i < out@.len() && 0 <= j < rest@.len() ==> (#[trigger] out@[i].adjusted)
                    >= (#[trigger] rest@[j].adjusted),
        decreases rest@.len(),
    {
        let mut max: usize = 0;
        let mut i: usize = 1;
        while i < rest.len()
            invariant
                rest@.len() > 0,
                max < i,
                i <= rest@.len(),
                forall|x: int|
                    0 <= x < i ==> (#[trigger] rest@[x].adjusted) <= rest@[max as int].adjusted,
            decreases rest@.len() - i,
        {
            if rest[i].adjusted > rest[max].adjusted {
                max = i;
            }
            i = i + 1;
        }
        let ghost rest_before_seq = rest@;
        let ghost out_before_seq = out@;
        let picked = rest.remove(max);
        out.push(picked);
        proof {
            rest_before_seq.to_multiset_ensures();
            out_before_seq.to_multiset_ensures();
            rest@.to_multiset_ensures();
            out@.to_multiset_ensures();
            assert(rest_before_seq[max as int] == picked);
            assert(rest@ == rest_before_seq.remove(max as int));
            assert(rest_before_seq.remove(max as int).to_multiset()
                =~= rest_before_seq.to_multiset().remove(picked));
            assert(rest@.to_multiset() =~= rest_before_seq.to_multiset().remove(picked));
            assert(rest_before_seq.contains(picked));
            assert(rest_before_seq.to_multiset().count(picked) > 0);
            assert(out@.to_multiset() =~= out_before_seq.to_multiset().insert(picked));
            assert(out@.to_multiset().add(rest@.to_multiset()) =~= orig_ms);
            assert forall|j: int| 0 <= j < rest@.len() implies (#[trigger] rest@[j].adjusted)
                <= picked.adjusted by {
                if j < max {
                    assert(rest@[j] == rest_before_seq[j]);
                } else {
                    assert(rest@[j] == rest_before_seq[j + 1]);
                }
            }
        }
    }
    proof {
        rest@.to_multiset_ensures();
        assert(rest@.to_multiset() =~= vstd::multiset::Multiset::<CompactPriority>::empty());
        assert(out@.to_multiset() =~= orig_ms);
    }
    out
}

/// Moves the level-zero priority to the front, keeping the rest in order;
/// worker zero compacts level zero first.
pub fn move_l0_to_front(prios: Vec<CompactPriority>) -> (r: Vec<CompactPriority>)
    ensures
        (forall|i: int| 0 <= i < prios@.len() ==> (#[trigger] prios@[i].level.0) != 0) ==> r@
            == prios@,
        (exists|i: int| 0 <= i < prios@.len() && (#[trigger] prios@[i].level.0) == 0) ==> exists|
            idx: int,
        |
            {
                &&& 0 <= idx < prios@.len()
                &&& (#[trigger] prios@[idx].level.0) == 0
                &&& (forall|x: int| 0 <= x < idx ==> (#[trigger] prios@[x].level.0) != 0)
                &&& r@ == seq![prios@[idx]] + prios@.subrange(0, idx) + prios@.skip(idx + 1)
            },
{
    let mut index: Option<usize> = None;
    let mut i: usize = 0;
    while i < prios.len()
        invariant
            i <= prios@.len(),
            match index {
                None => forall|x: int| 0 <= x < i ==> (#[trigger] prios@[x].level.0) != 0,
                Some(idx) => 0 <= idx < i && prios@[idx as int].level.0 == 0 && (forall|x: int|
                    0 <= x < idx ==> (#[trigger] prios@[x].level.0) != 0),
            },
        decreases prios@.len() - i,
    {
        if matches!(index, None) && prios[i].level.0 == 0 {
            index = Some(i);
        }
        i = i + 1;
    }
    match index {
        None => prios,
        Some(idx) => {
            if idx == 0 {
                proof {
                    assert(prios@ =~= seq![prios@[0]] + prios@.subrange(0, 0) + prios@.skip(1));
                }
                prios
            } else {
                let mut prios = prios;
                let ghost orig = prios@;
                let front = prios.remove(idx);
                prios.insert(0, front);
                proof {
                    assert(prios@ =~= seq![orig[idx as int]] + orig.subrange(0, idx as int)
                        + orig.skip(idx as int + 1));
                }
                prios
            }
        },
    }
}

// ---------------------------------------------------------------------------
// Overlap search
// ---------------------------------------------------------------------------

impl LevelHandlerTables {
    /// The half-open index range of tables a compaction range touches: from
    /// the first table ending at or past the range's left bound, up to but
    /// not including the first table starting strictly past its right
    /// bound. Ranges with an unset bound touch nothing.
    pub fn overlap_tables(&self, range: &KeyTsRange) -> (r: (usize, usize))
        requires
            crate::level::level_tables_wf(self.tables@),
        ensures
            ({
                let ts = self.tables@;
                if range.left.key@.len() == 0 && range.left.txn_ts.0 == 0 || range.right.key@.len()
                    == 0 && range.right.txn_ts.0 == 0 {
                    r == (0usize, 0usize)
                } else {
                    &&& r.0 <= ts.len()
                    &&& r.1 <= ts.len()
                    &&& forall|x: int|
                        0 <= x < r.0 ==> keyts_lt(
                            (#[trigger] ts[x]).biggest.key@,
                            ts[x].biggest.txn_ts.0,
                            range.left.key@,
                            range.left.txn_ts.0,
                        )
                    &&& forall|x: int|
                        r.0 <= x < ts.len() ==> keyts_le(
                            range.left.key@,
                            range.left.txn_ts.0,
                            (#[trigger] ts[x]).biggest.key@,
                            ts[x].biggest.txn_ts.0,
                        )
                    &&& forall|x: int|
                        0 <= x < r.1 ==> keyts_le(
                            (#[trigger] ts[x]).smallest.key@,
                            ts[x].smallest.txn_ts.0,
                            range.right.key@,
                            range.right.txn_ts.0,
                        )
                    &&& forall|x: int|
                        r.1 <= x < ts.len() ==> keyts_lt(
                            range.right.key@,
                            range.right.txn_ts.0,
                            (#[trigger] ts[x]).smallest.key@,
                            ts[x].smallest.txn_ts.0,
                        )
                }
            }),
    {
        if self.left_or_right_unset(range) {
            return (0, 0);
        }
        let left_index = self.lower_bound_by_biggest(&range.left);
        let right_index = self.upper_bound_by_smallest(&range.right);
        (left_index, right_index)
    }

    /// Whether either bound of the range is unset.
    fn left_or_right_unset(&self, range: &KeyTsRange) -> (r: bool)
        ensures
            r == (range.left.key@.len() == 0 && range.left.txn_ts.0 == 0 || range.right.key@.len()
                == 0 && range.right.txn_ts.0 == 0),
    {
        range.left.is_empty() || range.right.is_empty()
    }

    /// The first index whose biggest key is at or past `target`.
    fn lower_bound_by_biggest(&self, target: &KeyTs) -> (r: usize)
        requires
            crate::level::level_tables_wf(self.tables@),
        ensures
            r <= self.tables@.len(),
            forall|x: int|
                0 <= x < r ==> keyts_lt(
                    (#[trigger] self.tables@[x]).biggest.key@,
                    self.tables@[x].biggest.txn_ts.0,
                    target.key@,
                    target.txn_ts.0,
                ),
            forall|x: int|
                r <= x < self.tables@.len() ==> keyts_le(
                    target.key@,
                    target.txn_ts.0,
                    (#[trigger] self.tables@[x]).biggest.key@,
                    self.tables@[x].biggest.txn_ts.0,
                ),
    {
        let ts = &self.tables;
        let mut left: usize = 0;
        let mut right: usize = ts.len();
        while left < right
            invariant
                left <= right <= ts@.len(),
                ts@ == self.tables@,
                crate::level::level_tables_wf(ts@),
                forall|x: int|
                    0 <= x < left ==> keyts_lt(
                        (#[trigger] ts@[x]).biggest.key@,
                        ts@[x].biggest.txn_ts.0,
                        target.key@,
                        target.txn_ts.0,
                    ),
                forall|x: int|
                    right <= x < ts@.len() ==> keyts_le(
                        target.key@,
                        target.txn_ts.0,
                        (#[trigger] ts@[x]).biggest.key@,
                        ts@[x].biggest.txn_ts.0,
                    ),
            decreases right - left,
        {
            let mid = left + (right - left) / 2;
            let ord = KeyTs::cmp(&ts[mid].biggest, target);
            if matches!(ord, core::cmp::Ordering::Less) {
                proof {
                    crate::level::lemma_biggest_increasing(ts@);
                    assert forall|x: int| 0 <= x < mid + 1 implies keyts_lt(
                        (#[trigger] ts@[x]).biggest.key@,
                        ts@[x].biggest.txn_ts.0,
                        target.key@,
                        target.txn_ts.0,
                    ) by {
                        if x < mid {
                            crate::kv::lemma_keyts_order_total(
                                ts@[x].biggest.key@,
                                ts@[x].biggest.txn_ts.0,
                                ts@[mid as int].biggest.key@,
                                ts@[mid as int].biggest.txn_ts.0,
                                target.key@,
                                target.txn_ts.0,
                            );
                        }
                    }
                }
                left = mid + 1;
            } else {
                proof {
                    crate::level::lemma_biggest_increasing(ts@);
                    crate::kv::lemma_keyts_refl_nlt(
                        ts@[mid as int].biggest.key@,
                        ts@[mid as int].biggest.txn_ts.0,
                        target.key@,
                        target.txn_ts.0,
                    );
                    crate::kv::lemma_keyts_refl_nlt(
                        target.key@,
                        target.txn_ts.0,
                        ts@[mid as int].biggest.key@,
                        ts@[mid as int].biggest.txn_ts.0,
                    );
                    assert forall|x: int| mid <= x < ts@.len() implies keyts_le(
                        target.key@,
                        target.txn_ts.0,
                        (#[trigger] ts@[x]).biggest.key@,
                        ts@[x].biggest.txn_ts.0,
                    ) by {
                        if x > mid {
                            crate::kv::lemma_keyts_order_total(
                                target.key@,
                                target.txn_ts.0,
                                ts@[mid as int].biggest.key@,
                                ts@[mid as int].biggest.txn_ts.0,
                                ts@[x].biggest.key@,
                                ts@[x].biggest.txn_ts.0,
                            );
                        }
                    }
                }
                right = mid;
            }
        }
        left
    }

    /// The first index whose smallest key is strictly past `target`.
    fn upper_bound_by_smallest(&self, target: &KeyTs) -> (r: usize)
        requires
            crate::level::level_tables_wf(self.tables@),
        ensures
            r <= self.tables@.len(),
            forall|x: int|
                0 <= x < r ==> keyts_le(
                    (#[trigger] self.tables@[x]).smallest.key@,
                    self.tables@[x].smallest.txn_ts.0,
                    target.key@,
                    target.txn_ts.0,
                ),
            forall|x: int|
                r <= x < self.tables@.len() ==> keyts_lt(
                    target.key@,
                    target.txn_ts.0,
                    (#[trigger] self.tables@[x]).smallest.key@,
                    self.tables@[x].smallest.txn_ts.0,
                ),
    {
        let ts = &self.tables;
        let mut left: usize = 0;
        let mut right: usize = ts.len();
        proof {
            lemma_smallest_increasing(ts@);
        }
        while left < right
            invariant
                left <= right <= ts@.len(),
                ts@ == self.tables@,
                crate::level::level_tables_wf(ts@),
                forall|x: int|
                    0 <= x < left ==> keyts_le(
                        (#[trigger] ts@[x]).smallest.key@,
                        ts@[x].smallest.txn_ts.0,
                        target.key@,
                        target.txn_ts.0,
                    ),
                forall|x: int|
                    right <= x < ts@.len() ==> keyts_lt(
                        target.key@,
                        target.txn_ts.0,
                        (#[trigger] ts@[x]).smallest.key@,
                        ts@[x].smallest.txn_ts.0,
                    ),
            decreases right - left,
        {
            let mid = left + (right - left) / 2;
            let ord = KeyTs::cmp(&ts[mid].smallest, target);
            if matches!(ord, core::cmp::Ordering::Greater) {
                proof {
                    lemma_smallest_increasing(ts@);
                    crate::kv::lemma_keyts_refl_nlt(
                        target.key@,
                        target.txn_ts.0,
                        ts@[mid as int].smallest.key@,
                        ts@[mid as int].smallest.txn_ts.0,
                    );
                    crate::kv::lemma_keyts_refl_nlt(
                        ts@[mid as int].smallest.key@,
                        ts@[mid as int].smallest.txn_ts.0,
                        target.key@,
                        target.txn_ts.0,
                    );
                    crate::codec::lemma_lex_cmp_antisym(
                        ts@[mid as int].smallest.key@,
                        target.key@,
                    );
                    crate::codec::lemma_lex_cmp_antisym(
                        target.key@,
                        ts@[mid as int].smallest.key@,
                    );
                    crate::codec::lemma_lex_cmp_eq(ts@[mid as int].smallest.key@, target.key@);
                    crate::codec::lemma_lex_cmp_eq(target.key@, ts@[mid as int].smallest.key@);
                    assert forall|x: int| mid <= x < ts@.len() implies keyts_lt(
                        target.key@,
                        target.txn_ts.0,
                        (#[trigger] ts@[x]).smallest.key@,
                        ts@[x].smallest.txn_ts.0,
                    ) by {
                        if x > mid {
                            crate::kv::lemma_keyts_order_total(
                                target.key@,
                                target.txn_ts.0,
                                ts@[mid as int].smallest.key@,
                                ts@[mid as int].smallest.txn_ts.0,
                                ts@[x].smallest.key@,
                                ts@[x].smallest.txn_ts.0,
                            );
                        }
                    }
                }
                right = mid;
            } else {
                proof {
                    lemma_smallest_increasing(ts@);
                    assert forall|x: int| 0 <= x < mid + 1 implies keyts_le(
                        (#[trigger] ts@[x]).smallest.key@,
                        ts@[x].smallest.txn_ts.0,
                        target.key@,
                        target.txn_ts.0,
                    ) by {
                        if x < mid {
                            crate::kv::lemma_keyts_order_total(
                                ts@[x].smallest.key@,
                                ts@[x].smallest.txn_ts.0,
                                ts@[mid as int].smallest.key@,
                                ts@[mid as int].smallest.txn_ts.0,
                                target.key@,
                                target.txn_ts.0,
                            );
                        }
                    }
                }
                left = mid + 1;
            }
        }
        left
    }
}

/// Above level zero, the smallest keys are strictly increasing.
pub proof fn lemma_smallest_increasing(ts: Seq<Table>)
    requires
        crate::level::level_tables_wf(ts),
    ensures
        forall|i: int, j: int|
            0 <= i < j < ts.len() ==> keyts_lt(
                (#[trigger] ts[i]).smallest.key@,
                ts[i].smallest.txn_ts.0,
                (#[trigger] ts[j]).smallest.key@,
                ts[j].smallest.txn_ts.0,
            ),
{
    crate::level::lemma_level_wf_pairwise(ts);
    assert forall|i: int, j: int| 0 <= i < j < ts.len() implies keyts_lt(
        (#[trigger] ts[i]).smallest.key@,
        ts[i].smallest.txn_ts.0,
        (#[trigger] ts[j]).smallest.key@,
        ts[j].smallest.txn_ts.0,
    ) by {
        crate::kv::lemma_keyts_order_total(
            ts[i].smallest.key@,
            ts[i].smallest.txn_ts.0,
            ts[i].biggest.key@,
            ts[i].biggest.txn_ts.0,
            ts[j].smallest.key@,
            ts[j].smallest.txn_ts.0,
        );
    }
}

// ---------------------------------------------------------------------------
// The merge filter
// ---------------------------------------------------------------------------

/// Entries in key order: ascending user key, newest version first.
pub open spec fn entries_sorted(s: Seq<Entry>) -> bool {
    forall|i: int, j: int|
        0 <= i < j < s.len() ==> crate::kv::keyts_le(
            (#[trigger] s[i]).key_ts.key@,
            s[i].key_ts.txn_ts.0,
            (#[trigger] s[j]).key_ts.key@,
            s[j].key_ts.txn_ts.0,
        )
}

/// Some configured prefix starts the key.
pub open spec fn has_drop_prefix(prefixes: Seq<Vec<u8>>, key: Seq<u8>) -> bool {
    exists|i: int| 0 <= i < prefixes.len() && crate::db::starts_with(key, prefixes[i]@)
}

/// Whether the entry at `i` survives the compaction. Dropped are: keys
/// under a configured prefix; versions older than one that asked to
/// discard earlier versions; and, when writing the bottom level, tombstones
/// and expired entries no reader at or below the discard watermark can
/// need.
pub open spec fn keep_entry(
    s: Seq<Entry>,
    i: int,
    discard_ts: TxnTs,
    bottom: bool,
    prefixes: Seq<Vec<u8>>,
    now: crate::kv::PhyTs,
) -> bool {
    let e = s[i];
    if has_drop_prefix(prefixes, e.key_ts.key@) {
        false
    } else if exists|j: int|
        0 <= j < i && (#[trigger] s[j].key_ts.key@) == e.key_ts.key@ && s[j].value_meta.meta.0
            & crate::kv::META_DISCARD_EARLIER_VERSIONS
            == crate::kv::META_DISCARD_EARLIER_VERSIONS {
        false
    } else if (e.value_meta.meta.0 & crate::kv::META_DELETE == crate::kv::META_DELETE || (
    e.value_meta.expires_at.0 != 0 && e.value_meta.expires_at.0 <= now.0)) && bottom
        && e.key_ts.txn_ts.0 <= discard_ts.0 {
        false
    } else {
        true
    }
}

/// The entries among the first `k` that the compaction drops, in order.
pub open spec fn compact_dropped_upto(
    s: Seq<Entry>,
    k: int,
    discard_ts: TxnTs,
    bottom: bool,
    prefixes: Seq<Vec<u8>>,
    now: crate::kv::PhyTs,
) -> Seq<Entry>
    decreases k,
{
    if k <= 0 {
        Seq::empty()
    } else {
        let rest = compact_dropped_upto(s, k - 1, discard_ts, bottom, prefixes, now);
        if keep_entry(s, k - 1, discard_ts, bottom, prefixes, now) {
            rest
        } else {
            rest.push(s[k - 1])
        }
    }
}

/// The entries among the first `k` that the compaction keeps, in order.
pub open spec fn compact_filter_upto(
    s: Seq<Entry>,
    k: int,
    discard_ts: TxnTs,
    bottom: bool,
    prefixes: Seq<Vec<u8>>,
    now: crate::kv::PhyTs,
) -> Seq<Entry>
    decreases k,
{
    if k <= 0 {
        Seq::empty()
    } else {
        let rest = compact_filter_upto(s, k - 1, discard_ts, bottom, prefixes, now);
        if keep_entry(s, k - 1, discard_ts, bottom, prefixes, now) {
            rest.push(s[k - 1])
        } else {
            rest
        }
    }
}

/// Whether any configured prefix starts the key.
pub fn key_has_drop_prefix(prefixes: &Vec<Vec<u8>>, key: &[u8]) -> (r: bool)
    ensures
        r == has_drop_prefix(prefixes@, key@),
{
    let mut i: usize = 0;
    while i < prefixes.len()
        invariant
            i <= prefixes@.len(),
            forall|x: int|
                0 <= x < i ==> !crate::db::starts_with(key@, (#[trigger] prefixes@[x])@),
        decreases prefixes@.len() - i,
    {
        if crate::db::slice_starts_with(key, prefixes[i].as_slice()) {
            return true;
        }
        i = i + 1;
    }
    false
}

/// The compaction merge filter: walks the merged entries in key order and
/// keeps exactly those `keep_entry` admits, as of the instant `now`. The
/// dropped entries come back too, so their value-log records can be
/// credited to the discard counters.
pub fn compact_build_entries(
    merged: Vec<Entry>,
    discard_ts: TxnTs,
    is_bottom_level: bool,
    drop_prefixes: &Vec<Vec<u8>>,
    now: crate::kv::PhyTs,
) -> (r: (Vec<Entry>, Vec<Entry>))
    requires
        entries_sorted(merged@),
    ensures
        r.0@ == compact_filter_upto(
            merged@,
            merged@.len() as int,
            discard_ts,
            is_bottom_level,
            drop_prefixes@,
            now,
        ),
        r.1@ == compact_dropped_upto(
            merged@,
            merged@.len() as int,
            discard_ts,
            is_bottom_level,
            drop_prefixes@,
            now,
        ),
{
    let ghost s = merged@;
    let mut stack = merged;
    let mut rev: Vec<Entry> = Vec::new();
    loop
        invariant
            rev@.len() + stack@.len() == s.len(),
            forall|x: int| 0 <= x < stack@.len() ==> stack@[x] == s[x],
            forall|x: int| 0 <= x < rev@.len() ==> rev@[x] == s[s.len() - 1 - x],
        ensures
            stack@.len() == 0,
            rev@.len() == s.len(),
            forall|x: int| 0 <= x < rev@.len() ==> rev@[x] == s[s.len() - 1 - x],
        decreases stack@.len(),
    {
        match stack.pop() {
            None => {
                break ;
            },
            Some(t) => {
                rev.push(t);
            },
        }
    }
    let total = rev.len();
    proof {
        assert(s.len() == total);
    }
    let mut kept: Vec<Entry> = Vec::new();
    let mut dropped: Vec<Entry> = Vec::new();
    let mut discard_seen = false;
    let mut prev_key: Vec<u8> = Vec::new();
    let mut idx: usize = 0;
    let ghost mut i: int = 0;
    loop
        invariant
            idx as int == i,
            0 <= i <= s.len(),
            s.len() <= usize::MAX,
            entries_sorted(s),
            rev@.len() == s.len() - i,
            forall|x: int| 0 <= x < rev@.len() ==> rev@[x] == s[s.len() - 1 - x],
            kept@ == compact_filter_upto(
                s,
                i,
                discard_ts,
                is_bottom_level,
                drop_prefixes@,
                now,
            ),
            dropped@ == compact_dropped_upto(
                s,
                i,
                discard_ts,
                is_bottom_level,
                drop_prefixes@,
                now,
            ),
            i > 0 ==> prev_key@ == s[i - 1].key_ts.key@,
            i == 0 ==> !discard_seen,
            i > 0 ==> (discard_seen <==> exists|j: int|
                0 <= j < i && (#[trigger] s[j].key_ts.key@) == s[i - 1].key_ts.key@ && s[
                    j
                ].value_meta.meta.0 & crate::kv::META_DISCARD_EARLIER_VERSIONS
                    == crate::kv::META_DISCARD_EARLIER_VERSIONS),
        ensures
            rev@.len() == 0,
            i == s.len(),
            kept@ == compact_filter_upto(
                s,
                i,
                discard_ts,
                is_bottom_level,
                drop_prefixes@,
                now,
            ),
            dropped@ == compact_dropped_upto(
                s,
                i,
                discard_ts,
                is_bottom_level,
                drop_prefixes@,
                now,
            ),
        decreases rev@.len(),
    {
        let e = match rev.pop() {
            None => {
                break ;
            },
            Some(e) => e,
        };
        proof {
            assert(e == s[i]);
        }
        let same_key = if idx == 0 {
            false
        } else {
            let ord = crate::codec::cmp_bytes(prev_key.as_slice(), e.key_ts.key.as_slice());
            proof {
                crate::codec::lemma_lex_cmp_eq(prev_key@, e.key_ts.key@);
            }
            matches!(ord, core::cmp::Ordering::Equal)
        };
        if !same_key {
            proof {
                if i > 0 && s[i - 1].key_ts.key@ != s[i].key_ts.key@ {
                    lemma_no_earlier_same_key(s, i);
                }
            }
            discard_seen = false;
        }
        let has_prefix = key_has_drop_prefix(drop_prefixes, e.key_ts.key.as_slice());
        let deleted_or_expired = e.value_meta.meta.0 & crate::kv::META_DELETE
            == crate::kv::META_DELETE || (e.value_meta.expires_at.0 != 0
            && e.value_meta.expires_at.0 <= now.0);
        let keep = if has_prefix {
            false
        } else if discard_seen {
            false
        } else if deleted_or_expired && is_bottom_level && e.key_ts.txn_ts.0 <= discard_ts.0 {
            false
        } else {
            true
        };
        proof {
            assert(keep == keep_entry(s, i, discard_ts, is_bottom_level, drop_prefixes@, now))
                by {
                if !has_prefix {
                    if discard_seen {
                        assert(s[i - 1].key_ts.key@ == s[i].key_ts.key@);
                    } else {
                        assert(!(exists|j: int|
                            0 <= j < i && (#[trigger] s[j].key_ts.key@) == s[i].key_ts.key@ && s[
                                j
                            ].value_meta.meta.0 & crate::kv::META_DISCARD_EARLIER_VERSIONS
                                == crate::kv::META_DISCARD_EARLIER_VERSIONS)) by {
                            if exists|j: int|
                                0 <= j < i && (#[trigger] s[j].key_ts.key@) == s[i].key_ts.key@
                                    && s[j].value_meta.meta.0
                                    & crate::kv::META_DISCARD_EARLIER_VERSIONS
                                    == crate::kv::META_DISCARD_EARLIER_VERSIONS {
                                let j = choose|j: int|
                                    0 <= j < i && (#[trigger] s[j].key_ts.key@) == s[
                                        i
                                    ].key_ts.key@ && s[j].value_meta.meta.0
                                        & crate::kv::META_DISCARD_EARLIER_VERSIONS
                                        == crate::kv::META_DISCARD_EARLIER_VERSIONS;
                                if i > 0 && s[i - 1].key_ts.key@ != s[i].key_ts.key@ {
                                    lemma_no_earlier_same_key(s, i);
                                }
                            }
                        }
                    }
                }
            }
        }
        let has_discard_bit = e.value_meta.meta.0 & crate::kv::META_DISCARD_EARLIER_VERSIONS
            == crate::kv::META_DISCARD_EARLIER_VERSIONS;
        let ghost discard_seen_old = discard_seen;
        if has_discard_bit {
            discard_seen = true;
        }
        prev_key = crate::codec::copy_slice(e.key_ts.key.as_slice());
        if keep {
            kept.push(e);
        } else {
            dropped.push(e);
        }
        idx = idx + 1;
        proof {
            i = i + 1;
            assert(kept@ == compact_filter_upto(
                s,
                i,
                discard_ts,
                is_bottom_level,
                drop_prefixes@,
                now,
            ));
            if discard_seen {
                if has_discard_bit {
                    assert(s[i - 1].key_ts.key@ == s[i - 1].key_ts.key@);
                } else {
                    let j = choose|j: int|
                        0 <= j < i - 1 && (#[trigger] s[j].key_ts.key@) == s[i - 2].key_ts.key@
                            && s[j].value_meta.meta.0
                            & crate::kv::META_DISCARD_EARLIER_VERSIONS
                            == crate::kv::META_DISCARD_EARLIER_VERSIONS;
                    assert(s[i - 2].key_ts.key@ == s[i - 1].key_ts.key@);
                    assert(s[j].key_ts.key@ == s[i - 1].key_ts.key@);
                }
            }
        }
    }
    (kept, dropped)
}

/// The entry at `k` carries a value pointer with a positive record length.
pub open spec fn dropped_pointer_at(dropped: Seq<Entry>, k: int) -> bool {
    &&& 0 <= k < dropped.len()
    &&& dropped[k].value_meta.meta.0 & crate::kv::META_VALUE_POINTER
        == crate::kv::META_VALUE_POINTER
    &&& dropped[k].value_meta.value@.len() >= 12
    &&& crate::codec::u32_from_be_spec(dropped[k].value_meta.value@.skip(4)) > 0
}

/// Credits the value-log records of dropped entries to the discard
/// counters: each dropped entry holding a value pointer with a positive
/// record length adds that length against the pointer's file, which is
/// recorded afterwards.
pub fn credit_discard_stats(
    stats: &mut crate::discard::DiscardStatsInner,
    dropped: &Vec<Entry>,
) -> (r: Result<(), crate::errors::DBError>)
    requires
        crate::discard::discard_wf(*old(stats)),
        old(stats).buf@.len() <= usize::MAX / 8,
    ensures
        r is Ok ==> crate::discard::discard_wf(*final(stats)),
        r is Ok ==> final(stats).next_empty_slot >= old(stats).next_empty_slot,
        r is Ok ==> forall|k: int|
            dropped_pointer_at(dropped@, k) ==> exists|j: int|
                0 <= j < final(stats).next_empty_slot && crate::discard::slot_fid(
                    #[trigger] final(stats).buf@.skip(0),
                    j,
                ) == crate::codec::u32_from_be_spec((#[trigger] dropped@[k]).value_meta.value@) as u64,
{
    let mut i: usize = 0;
    while i < dropped.len()
        invariant
            i <= dropped@.len(),
            crate::discard::discard_wf(*stats),
            stats.buf@.len() <= usize::MAX / 4,
            stats.next_empty_slot < usize::MAX,
            stats.next_empty_slot >= old(stats).next_empty_slot,
            forall|k: int|
                k < i && dropped_pointer_at(dropped@, k) ==> exists|j: int|
                    0 <= j < stats.next_empty_slot && crate::discard::slot_fid(
                        #[trigger] stats.buf@.skip(0),
                        j,
                    ) == crate::codec::u32_from_be_spec(
                        (#[trigger] dropped@[k]).value_meta.value@,
                    ) as u64,
        decreases dropped@.len() - i,
    {
        let e = &dropped[i];
        if e.value_meta.meta.0 & crate::kv::META_VALUE_POINTER == crate::kv::META_VALUE_POINTER
            && e.value_meta.value.len() >= 12 {
            let p = crate::kv::ValuePointer::deserialize(e.value_meta.value.as_slice());
            if stats.buf.len() > usize::MAX / 8 {
                return Err(crate::errors::DBError::ValuelogSize);
            }
            let delta: i64 = if p.len() as u64 <= i64::MAX as u64 {
                p.len() as i64
            } else {
                i64::MAX
            };
            let ghost pre = *stats;
            let fid = p.fid() as u64;
            match stats.update(fid, delta) {
                Ok(_) => {},
                Err(err) => {
                    return Err(err);
                },
            }
            proof {
                let buf0 = pre.buf@;
                let n0 = pre.next_empty_slot as int;
                let buf1 = stats.buf@;
                let n1 = stats.next_empty_slot as int;
                assert(buf1.skip(0) =~= buf1);
                assert(buf0.skip(0) =~= buf0);
                let found = exists|i0: int| 0 <= i0 < n0 && crate::discard::slot_fid(buf0, i0)
                    == fid;
                assert forall|k: int|
                    k < i + 1 && dropped_pointer_at(dropped@, k) implies exists|j: int|
                    0 <= j < stats.next_empty_slot && crate::discard::slot_fid(
                        #[trigger] stats.buf@.skip(0),
                        j,
                    ) == crate::codec::u32_from_be_spec(
                        (#[trigger] dropped@[k]).value_meta.value@,
                    ) as u64 by {
                    if k == i {
                        assert(fid == crate::codec::u32_from_be_spec(
                            dropped@[k].value_meta.value@,
                        ) as u64);
                        if found {
                            let i0 = choose|i0: int|
                                0 <= i0 < n0 && crate::discard::slot_fid(buf0, i0) == fid;
                            if delta == 0 {
                                assert(crate::discard::slot_fid(buf1.skip(0), i0) == fid);
                            } else {
                                assert(crate::discard::slot_fid(buf1, i0) == fid);
                                assert(crate::discard::slot_fid(buf1.skip(0), i0) == fid);
                            }
                        } else {
                            assert(delta > 0);
                        }
                    } else {
                        let j_old = choose|j: int|
                            0 <= j < pre.next_empty_slot && crate::discard::slot_fid(
                                #[trigger] pre.buf@.skip(0),
                                j,
                            ) == crate::codec::u32_from_be_spec(
                                dropped@[k].value_meta.value@,
                            ) as u64;
                        if found {
                            if delta == 0 {
                                assert(*stats == pre);
                                assert(crate::discard::slot_fid(buf1.skip(0), j_old)
                                    == crate::discard::slot_fid(buf0.skip(0), j_old));
                            } else {
                                assert(crate::discard::slot_fid(buf1.skip(0), j_old)
                                    == crate::discard::slot_fid(buf0, j_old));
                            }
                        } else if delta <= 0 {
                            assert(*stats == pre);
                        } else {
                            crate::discard::lemma_pair_preserved(
                                buf0,
                                n0,
                                buf1,
                                n1,
                                (fid, delta as u64),
                                j_old,
                            );
                        }
                    }
                }
            }
        } else {
            proof {
                assert forall|k: int|
                    k < i + 1 && dropped_pointer_at(dropped@, k) implies exists|j: int|
                    0 <= j < stats.next_empty_slot && crate::discard::slot_fid(
                        #[trigger] stats.buf@.skip(0),
                        j,
                    ) == crate::codec::u32_from_be_spec(
                        (#[trigger] dropped@[k]).value_meta.value@,
                    ) as u64 by {
                    assert(k < i);
                }
            }
        }
        i = i + 1;
    }
    Ok(())
}

/// In sorted entries, when adjacent keys differ, no earlier entry shares
/// the later key.
proof fn lemma_no_earlier_same_key(s: Seq<Entry>, i: int)
    requires
        entries_sorted(s),
        0 < i < s.len(),
        s[i - 1].key_ts.key@ != s[i].key_ts.key@,
    ensures
        forall|j: int| 0 <= j < i ==> (#[trigger] s[j].key_ts.key@) != s[i].key_ts.key@,
{
    assert forall|j: int| 0 <= j < i implies (#[trigger] s[j].key_ts.key@) != s[i].key_ts.key@ by {
        if s[j].key_ts.key@ == s[i].key_ts.key@ {
            crate::kv::lemma_keyts_order_total(
                s[j].key_ts.key@,
                s[j].key_ts.txn_ts.0,
                s[i - 1].key_ts.key@,
                s[i - 1].key_ts.txn_ts.0,
                s[i].key_ts.key@,
                s[i].key_ts.txn_ts.0,
            );
            crate::codec::lemma_lex_cmp_eq(s[j].key_ts.key@, s[i - 1].key_ts.key@);
            crate::codec::lemma_lex_cmp_eq(s[i - 1].key_ts.key@, s[i].key_ts.key@);
            crate::codec::lemma_lex_cmp_antisym(s[j].key_ts.key@, s[i - 1].key_ts.key@);
            crate::codec::lemma_lex_cmp_antisym(s[i - 1].key_ts.key@, s[i].key_ts.key@);
            crate::codec::lemma_lex_cmp_trans(
                s[j].key_ts.key@,
                s[i - 1].key_ts.key@,
                s[i].key_ts.key@,
            );
        }
    }
}

/// Compaction preserves live keys: a user key whose newest version is not
/// under a drop prefix, and is not a tombstone or expired entry being
/// settled into the bottom level, keeps at least one version.
pub proof fn lemma_compaction_preserves_live_keys(
    s: Seq<Entry>,
    i0: int,
    discard_ts: TxnTs,
    bottom: bool,
    prefixes: Seq<Vec<u8>>,
    now: crate::kv::PhyTs,
)
    requires
        entries_sorted(s),
        0 <= i0 < s.len(),
        forall|j: int| 0 <= j < i0 ==> (#[trigger] s[j].key_ts.key@) != s[i0].key_ts.key@,
        !has_drop_prefix(prefixes, s[i0].key_ts.key@),
        !((s[i0].value_meta.meta.0 & crate::kv::META_DELETE == crate::kv::META_DELETE || (s[
            i0
        ].value_meta.expires_at.0 != 0 && s[i0].value_meta.expires_at.0 <= now.0)) && bottom && s[
            i0
        ].key_ts.txn_ts.0 <= discard_ts.0),
    ensures
        exists|k: int|
            0 <= k < compact_filter_upto(
                s,
                s.len() as int,
                discard_ts,
                bottom,
                prefixes,
                now,
            ).len() && (#[trigger] compact_filter_upto(
                s,
                s.len() as int,
                discard_ts,
                bottom,
                prefixes,
                now,
            )[k]).key_ts.key@ == s[i0].key_ts.key@,
{
    assert(keep_entry(s, i0, discard_ts, bottom, prefixes, now));
    lemma_kept_entry_in_output(s, i0, s.len() as int, discard_ts, bottom, prefixes, now);
    let out = compact_filter_upto(s, s.len() as int, discard_ts, bottom, prefixes, now);
    let k = choose|k: int| 0 <= k < out.len() && out[k] == s[i0];
    assert(out[k].key_ts.key@ == s[i0].key_ts.key@);
}

/// A kept entry appears in the filtered output.
proof fn lemma_kept_entry_in_output(
    s: Seq<Entry>,
    i: int,
    k: int,
    discard_ts: TxnTs,
    bottom: bool,
    prefixes: Seq<Vec<u8>>,
    now: crate::kv::PhyTs,
)
    requires
        0 <= i < k <= s.len(),
        keep_entry(s, i, discard_ts, bottom, prefixes, now),
    ensures
        exists|x: int|
            0 <= x < compact_filter_upto(s, k, discard_ts, bottom, prefixes, now).len() && (
            #[trigger] compact_filter_upto(s, k, discard_ts, bottom, prefixes, now)[x]) == s[i],
    decreases k,
{
    let out = compact_filter_upto(s, k, discard_ts, bottom, prefixes, now);
    if i == k - 1 {
        assert(out.last() == s[i]);
        assert(out[out.len() - 1] == s[i]);
    } else {
        lemma_kept_entry_in_output(s, i, k - 1, discard_ts, bottom, prefixes, now);
        let prev = compact_filter_upto(s, k - 1, discard_ts, bottom, prefixes, now);
        let x = choose|x: int| 0 <= x < prev.len() && (#[trigger] prev[x]) == s[i];
        assert(out[x] == s[i]);
    }
}

// ---------------------------------------------------------------------------
// The worker's tick decision
// ---------------------------------------------------------------------------

/// What one compaction worker should attempt this tick. A designated worker
/// periodically attempts a last-level-to-itself compaction when that is
/// enabled; otherwise the scored priorities run in order, with worker zero
/// putting level zero first.
pub fn priorities_for_tick(
    levels: &Vec<LevelHandler>,
    status: &CompactStatus,
    cfg: &LevelConfig,
    compact_task_id: usize,
    tick_count: usize,
) -> (r: Vec<CompactPriority>)
    requires
        2 <= levels@.len() < 256,
        status.levels@.len() >= levels@.len(),
        cfg.level_size_multiplier >= 1,
        cfg.table_size_multiplier >= 1,
        cfg.base_level_size >= 1,
        cfg.num_level_zero_tables >= 1,
        mul_chain(
            cfg.table_size as int,
            cfg.table_size_multiplier as int,
            levels@.len() as int,
        ) <= usize::MAX,
    ensures
        ({
            let n = levels@.len() as int;
            if cfg.lmax_compaction && compact_task_id == 2 && tick_count >= 200 {
                &&& r@.len() == 1
                &&& r@[0].level.0 as int == n - 1
                &&& r@[0].score == 0
                &&& r@[0].adjusted == 0
            } else {
                &&& forall|k: int|
                    0 <= k < r@.len() ==> ((#[trigger] r@[k].level.0) as int) < n - 1
                &&& forall|k: int|
                    0 <= k < r@.len() ==> (#[trigger] r@[k].score) >= SCORE_SCALE
                &&& forall|lvl: int|
                    0 <= lvl < n - 1 && spec_raw_score(levels@, status.levels@, *cfg, lvl) >= (
                    SCORE_SCALE as int) ==> exists|k: int|
                        0 <= k < r@.len() && (#[trigger] r@[k].level.0) as int == lvl
            }
        }),
{
    let n = levels.len();
    if cfg.lmax_compaction && compact_task_id == 2 && tick_count >= 200 {
        let targets = level_targets(levels, cfg);
        let mut out: Vec<CompactPriority> = Vec::new();
        out.push(
            CompactPriority {
                level: Level((n - 1) as u8),
                score: 0,
                adjusted: 0,
                drop_prefixes: Vec::new(),
                targets,
            },
        );
        return out;
    }
    let prios = pick_compact_levels(levels, status, cfg);
    let ghost before = prios@;
    if compact_task_id == 0 {
        let fronted = move_l0_to_front(prios);
        proof {
            if exists|i: int| 0 <= i < before.len() && (#[trigger] before[i].level.0) == 0 {
                let idx = choose|idx: int|
                    {
                        &&& 0 <= idx < before.len()
                        &&& (#[trigger] before[idx].level.0) == 0
                        &&& (forall|x: int|
                            0 <= x < idx ==> (#[trigger] before[x].level.0) != 0)
                        &&& fronted@ == seq![before[idx]] + before.subrange(0, idx)
                            + before.skip(idx + 1)
                    };
                assert forall|k: int|
                    0 <= k < fronted@.len() implies ((#[trigger] fronted@[k].level.0) as int)
                    < levels@.len() - 1 && (fronted@[k].score) >= SCORE_SCALE by {
                    if k == 0 {
                        assert(fronted@[k] == before[idx]);
                    } else if k <= idx {
                        assert(fronted@[k] == before[k - 1]);
                    } else {
                        assert(fronted@[k] == before[k]);
                    }
                    assert(fronted@[k].score >= SCORE_SCALE);
                }
                assert forall|lvl: int|
                    0 <= lvl < levels@.len() - 1 && spec_raw_score(
                        levels@,
                        status.levels@,
                        *cfg,
                        lvl,
                    ) >= (SCORE_SCALE as int) implies exists|k: int|
                    0 <= k < fronted@.len() && (#[trigger] fronted@[k].level.0) as int == lvl by {
                    let k0 = choose|k0: int|
                        0 <= k0 < before.len() && (#[trigger] before[k0].level.0) as int == lvl;
                    if k0 == idx {
                        assert(fronted@[0].level.0 as int == lvl);
                    } else if k0 < idx {
                        assert(fronted@[k0 + 1] == before[k0]);
                        assert(fronted@[k0 + 1].level.0 as int == lvl);
                    } else {
                        assert(fronted@[k0] == before[k0]);
                        assert(fronted@[k0].level.0 as int == lvl);
                    }
                }
            }
        }
        fronted
    } else {
        prios
    }
}

} // verus!
