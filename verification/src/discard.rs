//! Discard statistics: a fixed-size buffer of `(fid, discard)` slots in
//! ascending fid order, the image of the memory-mapped stats file. The
//! counters drive value-log garbage collection.

use vstd::prelude::*;

use crate::codec::read_u64_be;
use crate::codec::u64_be_bytes;
use crate::codec::u64_from_be_spec;
use crate::errors::DBError;

verus! {

/// The stats file starts at this many bytes.
pub const DISCARD_FILE_SIZE: usize = 1048576;

/// The fid recorded in slot `i`.
pub open spec fn slot_fid(buf: Seq<u8>, i: int) -> u64 {
    u64_from_be_spec(buf.skip(i * 16))
}

/// The discard count recorded in slot `i`.
pub open spec fn slot_val(buf: Seq<u8>, i: int) -> u64 {
    u64_from_be_spec(buf.skip(i * 16 + 8))
}

/// The first `n` slots hold strictly increasing fids.
pub open spec fn slots_sorted(buf: Seq<u8>, n: int) -> bool {
    forall|i: int, j: int| 0 <= i < j < n ==> slot_fid(buf, i) < slot_fid(buf, j)
}

/// The stats image is coherent: whole slots, room for at least one, and
/// the used ones sorted.
pub open spec fn discard_wf(d: DiscardStatsInner) -> bool {
    &&& d.buf@.len() % 16 == 0
    &&& d.buf@.len() >= 16
    &&& d.next_empty_slot * 16 <= d.buf@.len()
    &&& slots_sorted(d.buf@, d.next_empty_slot as int)
}

/// The in-memory image of the discard-stats file and the first free slot.
#[derive(Debug)]
pub struct DiscardStatsInner {
    pub buf: Vec<u8>,
    pub next_empty_slot: usize,
}

impl DiscardStatsInner {
    /// A fresh, zeroed stats image.
    pub fn new() -> (r: Self)
        ensures
            discard_wf(r),
            r.buf@.len() == DISCARD_FILE_SIZE,
            r.next_empty_slot == 0,
            forall|i: int| 0 <= i < r.buf@.len() ==> (#[trigger] r.buf@[i]) == 0,
    {
        let mut buf: Vec<u8> = Vec::new();
        let mut i: usize = 0;
        while i < DISCARD_FILE_SIZE
            invariant
                i <= DISCARD_FILE_SIZE,
                buf@.len() == i,
                forall|x: int| 0 <= x < i ==> (#[trigger] buf@[x]) == 0,
            decreases DISCARD_FILE_SIZE - i,
        {
            buf.push(0);
            i = i + 1;
        }
        DiscardStatsInner { buf, next_empty_slot: 0 }
    }

    /// Writes a big-endian value at a byte offset.
    pub fn set(&mut self, offset: usize, val: u64) -> (r: Result<(), DBError>)
        requires
            offset + 8 <= old(self).buf@.len(),
        ensures
            r is Ok,
            final(self).buf@.len() == old(self).buf@.len(),
            final(self).buf@ =~= old(self).buf@.subrange(0, offset as int) + u64_be_bytes(val)
                + old(self).buf@.skip(offset + 8),
            final(self).next_empty_slot == old(self).next_empty_slot,
    {
        let blen = self.buf.len();
        let mut k: usize = 0;
        let ghost target = u64_be_bytes(val);
        while k < 8
            invariant
                k <= 8,
                blen == self.buf@.len(),
                offset + 8 <= self.buf@.len(),
                self.buf@.len() == old(self).buf@.len(),
                self.next_empty_slot == old(self).next_empty_slot,
                target == u64_be_bytes(val),
                forall|x: int|
                    0 <= x < self.buf@.len() && !(offset <= x < offset + k) ==> self.buf@[x]
                        == old(self).buf@[x],
                forall|x: int| 0 <= x < k ==> self.buf@[offset + x] == target[x],
            decreases 8 - k,
        {
            let byte: u8 = if k == 0 {
                (val >> 56) as u8
            } else if k == 1 {
                (val >> 48) as u8
            } else if k == 2 {
                (val >> 40) as u8
            } else if k == 3 {
                (val >> 32) as u8
            } else if k == 4 {
                (val >> 24) as u8
            } else if k == 5 {
                (val >> 16) as u8
            } else if k == 6 {
                (val >> 8) as u8
            } else {
                val as u8
            };
            self.buf.set(offset + k, byte);
            k = k + 1;
        }
        proof {
            assert(self.buf@ =~= old(self).buf@.subrange(0, offset as int) + u64_be_bytes(val)
                + old(self).buf@.skip(offset + 8));
        }
        Ok(())
    }

    /// Reads the big-endian value at a byte offset.
    pub fn get(&self, offset: usize) -> (r: u64)
        requires
            offset + 8 <= self.buf@.len(),
        ensures
            r == u64_from_be_spec(self.buf@.skip(offset as int)),
    {
        read_u64_be(self.buf.as_slice(), offset)
    }

    /// How many slots the image can hold.
    pub fn max_slot(&self) -> (r: usize)
        ensures
            r == self.buf@.len() / 16,
    {
        self.buf.len() / 16
    }
}

/// The `(fid, discard)` pairs of the first `n` slots.
pub open spec fn slots_pairs(buf: Seq<u8>, n: int) -> Seq<(u64, u64)> {
    Seq::new(n as nat, |i: int| (slot_fid(buf, i), slot_val(buf, i)))
}

impl DiscardStatsInner {
    /// Binary search over the used slots by fid.
    fn find_slot(&self, fid: u64) -> (r: Result<usize, usize>)
        requires
            discard_wf(*self),
        ensures
            match r {
                Ok(i) => i < self.next_empty_slot && slot_fid(self.buf@, i as int) == fid,
                Err(i) => {
                    &&& i <= self.next_empty_slot
                    &&& forall|x: int| 0 <= x < i ==> slot_fid(self.buf@, x) < fid
                    &&& forall|x: int|
                        i <= x < self.next_empty_slot ==> slot_fid(self.buf@, x) > fid
                },
            },
    {
        let cap = self.buf.len();
        let mut left: usize = 0;
        let mut right: usize = self.next_empty_slot;
        while left < right
            invariant
                cap == self.buf@.len(),
                discard_wf(*self),
                left <= right <= self.next_empty_slot,
                forall|x: int| 0 <= x < left ==> slot_fid(self.buf@, x) < fid,
                forall|x: int|
                    right <= x < self.next_empty_slot ==> slot_fid(self.buf@, x) > fid,
            decreases right - left,
        {
            let mid = left + (right - left) / 2;
            proof {
                let m = mid as int;
                let ne = self.next_empty_slot as int;
                assert(m * 16 + 16 <= ne * 16) by (nonlinear_arith)
                    requires
                        m < ne,
                        m >= 0,
                ;
            }
            let f = self.get(mid * 16);
            if f == fid {
                return Ok(mid);
            } else if f < fid {
                proof {
                    assert forall|x: int| 0 <= x < mid + 1 implies slot_fid(self.buf@, x)
                        < fid by {
                        if x < mid {
                            assert(slot_fid(self.buf@, x) < slot_fid(self.buf@, mid as int));
                        }
                    }
                }
                left = mid + 1;
            } else {
                proof {
                    assert forall|x: int|
                        mid <= x < self.next_empty_slot implies slot_fid(self.buf@, x) > fid by {
                        if x > mid {
                            assert(slot_fid(self.buf@, mid as int) < slot_fid(self.buf@, x));
                        }
                    }
                }
                right = mid;
            }
        }
        Err(left)
    }

    /// Updates one file's discard count: a zero delta reads it, a negative
    /// one clears it, a positive one adds (saturating); an unknown fid with
    /// a positive delta is inserted in fid order, doubling the image first
    /// when it is full. Returns the resulting count.
    pub fn update(&mut self, fid: u64, discard: i64) -> (r: Result<u64, DBError>)
        requires
            discard_wf(*old(self)),
            old(self).buf@.len() <= usize::MAX / 4,
            old(self).next_empty_slot < usize::MAX,
        ensures
            r is Ok ==> discard_wf(*final(self)),
            final(self).buf@.len() == old(self).buf@.len() || final(self).buf@.len() == old(
                self,
            ).buf@.len() * 2,
            ({
                let n = old(self).next_empty_slot as int;
                let buf0 = old(self).buf@;
                if exists|i: int| 0 <= i < n && slot_fid(buf0, i) == fid {
                    let i = choose|i: int| 0 <= i < n && slot_fid(buf0, i) == fid;
                    if discard == 0 {
                        r == Ok::<u64, DBError>(slot_val(buf0, i)) && *final(self) == *old(self)
                    } else if discard < 0 {
                        &&& r == Ok::<u64, DBError>(0u64)
                        &&& final(self).next_empty_slot == old(self).next_empty_slot
                        &&& slot_fid(final(self).buf@, i) == fid
                        &&& slot_val(final(self).buf@, i) == 0
                        &&& (forall|x: int|
                            0 <= x < n ==> slot_fid(#[trigger] final(self).buf@.skip(0), x)
                                == slot_fid(buf0, x))
                        &&& (forall|x: int|
                            0 <= x < n && x != i ==> slot_val(
                                #[trigger] final(self).buf@.skip(0),
                                x,
                            ) == slot_val(buf0, x))
                    } else {
                        &&& r is Ok
                        &&& r.unwrap() as int == (if slot_val(buf0, i) + discard <= u64::MAX {
                            slot_val(buf0, i) + discard
                        } else {
                            u64::MAX as int
                        })
                        &&& final(self).next_empty_slot == old(self).next_empty_slot
                        &&& slot_fid(final(self).buf@, i) == fid
                        &&& slot_val(final(self).buf@, i) == r.unwrap()
                        &&& (forall|x: int|
                            0 <= x < n ==> slot_fid(#[trigger] final(self).buf@.skip(0), x)
                                == slot_fid(buf0, x))
                        &&& (forall|x: int|
                            0 <= x < n && x != i ==> slot_val(
                                #[trigger] final(self).buf@.skip(0),
                                x,
                            ) == slot_val(buf0, x))
                    }
                } else if discard <= 0 {
                    r == Ok::<u64, DBError>(0u64) && *final(self) == *old(self)
                } else {
                    &&& r is Ok
                    &&& r.unwrap() == discard as u64
                    &&& final(self).next_empty_slot == old(self).next_empty_slot + 1
                    &&& exists|j: int|
                        0 <= j < final(self).next_empty_slot && slot_fid(
                            #[trigger] final(self).buf@.skip(0),
                            j,
                        ) == fid && slot_val(final(self).buf@, j) == discard as u64
                    &&& slots_pairs(final(self).buf@, final(self).next_empty_slot as int)
                        .to_multiset() == slots_pairs(buf0, n).push(
                        (fid, discard as u64),
                    ).to_multiset()
                }
            }),
    {
        broadcast use vstd::seq_lib::group_to_multiset_ensures;

        let n = self.next_empty_slot;
        match self.find_slot(fid) {
            Ok(index) => {
                proof {
                    let m = index as int;
                    let ne = self.next_empty_slot as int;
                    assert(m * 16 + 16 <= ne * 16) by (nonlinear_arith)
                        requires
                            m < ne,
                            m >= 0,
                    ;
                }
                let offset = index * 16 + 8;
                proof {
                    assert(slot_fid(self.buf@, index as int) == fid);
                }
                let cur = self.get(offset);
                if discard == 0 {
                    proof {
                        lemma_found_slot_unique(self.buf@, n as int, index as int, fid);
                    }
                    Ok(cur)
                } else if discard < 0 {
                    self.set_slot_val(index, 0);
                    proof {
                        lemma_found_slot_unique(old(self).buf@, n as int, index as int, fid);
                    }
                    Ok(0)
                } else {
                    let added = if cur <= u64::MAX - discard as u64 {
                        cur + discard as u64
                    } else {
                        u64::MAX
                    };
                    self.set_slot_val(index, added);
                    proof {
                        lemma_found_slot_unique(old(self).buf@, n as int, index as int, fid);
                    }
                    Ok(added)
                }
            },
            Err(pos) => {
                if discard <= 0 {
                    proof {
                        assert(!(exists|i: int|
                            0 <= i < n && slot_fid(self.buf@, i) == fid));
                    }
                    return Ok(0);
                }
                // Grow the image when it is full.
                let ghost buf_before = self.buf@;
                if (n + 1) * 16 > self.buf.len() {
                    let target = self.buf.len() * 2;
                    let mut len = self.buf.len();
                    while len < target
                        invariant
                            len == self.buf@.len(),
                            len <= target,
                            target <= usize::MAX / 2,
                            self.next_empty_slot == old(self).next_empty_slot,
                            self.buf@.subrange(0, old(self).buf@.len() as int) =~= old(
                                self,
                            ).buf@,
                            target == old(self).buf@.len() * 2,
                            old(self).buf@.len() <= len,
                        decreases target - len,
                    {
                        self.buf.push(0);
                        len = len + 1;
                    }
                }
                proof {
                    lemma_slots_prefix(buf_before, self.buf@, n as int);
                    assert((n + 1) * 16 <= self.buf@.len()) by (nonlinear_arith)
                        requires
                            n as int * 16 <= buf_before.len(),
                            buf_before.len() >= 16,
                            buf_before.len() % 16 == 0,
                            self.buf@.len() == buf_before.len() || self.buf@.len()
                                == buf_before.len() * 2,
                            (n as int + 1) * 16 > buf_before.len() ==> self.buf@.len()
                                == buf_before.len() * 2,
                    ;
                    assert(discard_wf(*self));
                    assert(forall|x: int| 0 <= x < pos ==> slot_fid(self.buf@, x) < fid);
                    assert(forall|x: int|
                        pos <= x < n ==> slot_fid(self.buf@, x) > fid);
                    assert(slots_pairs(self.buf@, n as int) =~= slots_pairs(
                        buf_before,
                        n as int,
                    ));
                }
                self.insert_slot_at(pos, fid, discard as u64);
                Ok(discard as u64)
            },
        }
    }

    /// Overwrites the discard count of slot `index`.
    fn set_slot_val(&mut self, index: usize, val: u64)
        requires
            discard_wf(*old(self)),
            index < old(self).next_empty_slot,
        ensures
            discard_wf(*final(self)),
            final(self).next_empty_slot == old(self).next_empty_slot,
            final(self).buf@.len() == old(self).buf@.len(),
            slot_val(final(self).buf@, index as int) == val,
            forall|x: int|
                0 <= x < final(self).next_empty_slot ==> slot_fid(final(self).buf@, x) == slot_fid(
                    old(self).buf@,
                    x,
                ),
            forall|x: int|
                0 <= x < final(self).next_empty_slot && x != index as int ==> slot_val(
                    final(self).buf@,
                    x,
                ) == slot_val(old(self).buf@, x),
    {
        let cap = self.buf.len();
        proof {
            let n0 = old(self).next_empty_slot as int;
            let idx = index as int;
            assert(idx * 16 + 16 <= n0 * 16) by (nonlinear_arith)
                requires
                    idx < n0,
                    idx >= 0,
            ;
            assert(n0 * 16 <= cap as int);
        }
        let offset = index * 16 + 8;
        let _ = self.set(offset, val);
        proof {
            assert forall|x: int|
                0 <= x < self.next_empty_slot implies slot_fid(self.buf@, x) == slot_fid(
                old(self).buf@,
                x,
            ) && (x != index as int ==> slot_val(self.buf@, x) == slot_val(
                old(self).buf@,
                x,
            )) by {
                lemma_slot_reads(old(self).buf@, self.buf@, x, offset as int);
            }
            assert(slot_val(self.buf@, index as int) == val) by {
                assert(self.buf@.skip(offset as int).subrange(0, 8) =~= u64_be_bytes(val));
                crate::codec::lemma_u64_be_roundtrip(val);
                lemma_first8(self.buf@.skip(offset as int), u64_be_bytes(val));
            }
        }
    }

    /// Makes room at slot `pos`, shifting the used slots above it one to
    /// the right, and records `(fid, val)` there.
    fn insert_slot_at(&mut self, pos: usize, fid: u64, val: u64)
        requires
            discard_wf(*old(self)),
            pos <= old(self).next_empty_slot,
            old(self).next_empty_slot < usize::MAX,
            (old(self).next_empty_slot + 1) * 16 <= old(self).buf@.len(),
            forall|x: int| 0 <= x < pos ==> slot_fid(old(self).buf@, x) < fid,
            forall|x: int|
                pos <= x < old(self).next_empty_slot ==> slot_fid(old(self).buf@, x) > fid,
        ensures
            discard_wf(*final(self)),
            final(self).buf@.len() == old(self).buf@.len(),
            final(self).next_empty_slot == old(self).next_empty_slot + 1,
            exists|j: int|
                0 <= j < final(self).next_empty_slot && slot_fid(
                    #[trigger] final(self).buf@.skip(0),
                    j,
                ) == fid && slot_val(final(self).buf@, j) == val,
            slots_pairs(final(self).buf@, final(self).next_empty_slot as int).to_multiset()
                == slots_pairs(old(self).buf@, old(self).next_empty_slot as int).push(
                (fid, val),
            ).to_multiset(),
    {
        let n = self.next_empty_slot;
        let ghost buf0 = self.buf@;
        let cap = self.buf.len();
        let mut k: usize = n;
        while k > pos
            invariant
                pos <= k <= n,
                n == old(self).next_empty_slot,
                self.next_empty_slot == n,
                (n + 1) * 16 <= self.buf@.len(),
                cap == self.buf@.len(),
                self.buf@.len() == buf0.len(),
                buf0 == old(self).buf@,
                forall|x: int|
                    0 <= x <= k ==> slot_fid(self.buf@, x) == slot_fid(buf0, x) && slot_val(
                        self.buf@,
                        x,
                    ) == slot_val(buf0, x),
                forall|x: int|
                    k < x <= n ==> slot_fid(self.buf@, x) == slot_fid(buf0, x - 1) && slot_val(
                        self.buf@,
                        x,
                    ) == slot_val(buf0, x - 1),
            decreases k,
        {
            proof {
                lemma_slot_bounds(k as int - 1, n as int, self.buf@.len() as int);
                lemma_slot_bounds(k as int, n as int, self.buf@.len() as int);
            }
            let src_fid = self.get((k - 1) * 16);
            let src_val = self.get((k - 1) * 16 + 8);
            proof {
                assert(src_fid == slot_fid(self.buf@, k as int - 1));
                assert(src_val == slot_val(self.buf@, k as int - 1));
                assert(src_fid == slot_fid(buf0, k as int - 1));
                assert(src_val == slot_val(buf0, k as int - 1));
            }
            let ghost before = self.buf@;
            self.write_slot(k, src_fid, src_val);
            proof {
                assert forall|x: int|
                    0 <= x <= n && x != k as int implies slot_fid(self.buf@, x) == slot_fid(
                    before,
                    x,
                ) && slot_val(self.buf@, x) == slot_val(before, x) by {
                    lemma_slot_bounds(x, n as int, self.buf@.len() as int);
                    lemma_write_slot_other(before, self.buf@, k as int, x);
                }
                assert(slot_fid(self.buf@, k as int) == slot_fid(buf0, k as int - 1));
                assert(slot_val(self.buf@, k as int) == slot_val(buf0, k as int - 1));
                assert forall|x: int|
                    0 <= x <= k as int - 1 implies slot_fid(self.buf@, x) == slot_fid(buf0, x)
                    && slot_val(self.buf@, x) == slot_val(buf0, x) by {
                    assert(slot_fid(self.buf@, x) == slot_fid(before, x));
                    assert(slot_fid(before, x) == slot_fid(buf0, x));
                    assert(slot_val(self.buf@, x) == slot_val(before, x));
                    assert(slot_val(before, x) == slot_val(buf0, x));
                }
                assert forall|x: int|
                    k as int - 1 < x <= n implies slot_fid(self.buf@, x) == slot_fid(buf0, x - 1)
                    && slot_val(self.buf@, x) == slot_val(buf0, x - 1) by {
                    if x != k as int {
                        assert(slot_fid(self.buf@, x) == slot_fid(before, x));
                        assert(slot_fid(before, x) == slot_fid(buf0, x - 1));
                        assert(slot_val(self.buf@, x) == slot_val(before, x));
                        assert(slot_val(before, x) == slot_val(buf0, x - 1));
                    }
                }
            }
            k = k - 1;
        }
        let ghost mid = self.buf@;
        proof {
            lemma_slot_bounds(pos as int, n as int, self.buf@.len() as int);
        }
        self.write_slot(pos, fid, val);
        self.next_empty_slot = n + 1;
        proof {
            assert forall|x: int|
                0 <= x <= n && x != pos as int implies slot_fid(self.buf@, x) == slot_fid(
                mid,
                x,
            ) && slot_val(self.buf@, x) == slot_val(mid, x) by {
                lemma_slot_bounds(x, n as int, self.buf@.len() as int);
                lemma_write_slot_other(mid, self.buf@, pos as int, x);
            }
            let buff = self.buf@;
            let nn = n as int + 1;
            assert(slot_fid(buff, pos as int) == fid && slot_val(buff, pos as int) == val);
            assert forall|x: int|
                0 <= x < pos implies slot_fid(buff, x) == slot_fid(buf0, x) && slot_val(buff, x)
                == slot_val(buf0, x) by {
                assert(slot_fid(buff, x) == slot_fid(mid, x));
                assert(slot_fid(mid, x) == slot_fid(buf0, x));
                assert(slot_val(buff, x) == slot_val(mid, x));
                assert(slot_val(mid, x) == slot_val(buf0, x));
            }
            assert forall|x: int|
                pos < x <= n implies slot_fid(buff, x) == slot_fid(buf0, x - 1) && slot_val(
                buff,
                x,
            ) == slot_val(buf0, x - 1) by {
                assert(slot_fid(buff, x) == slot_fid(mid, x));
                assert(slot_fid(mid, x) == slot_fid(buf0, x - 1));
                assert(slot_val(buff, x) == slot_val(mid, x));
                assert(slot_val(mid, x) == slot_val(buf0, x - 1));
            }
            assert forall|i: int, j: int| 0 <= i < j < nn implies slot_fid(buff, i) < slot_fid(
                buff,
                j,
            ) by {
                if j < pos {
                } else if j == pos {
                    assert(slot_fid(buff, i) == slot_fid(buf0, i));
                } else {
                    assert(slot_fid(buff, j) == slot_fid(buf0, j - 1));
                    if i < pos {
                        assert(slot_fid(buff, i) == slot_fid(buf0, i));
                    } else if i == pos {
                        assert(slot_fid(buf0, j - 1) > fid);
                    } else {
                        assert(slot_fid(buff, i) == slot_fid(buf0, i - 1));
                    }
                }
            }
            assert(slots_pairs(buff, nn).to_multiset() == slots_pairs(buf0, n as int).push(
                (fid, val),
            ).to_multiset()) by {
                let a = slots_pairs(buff, nn);
                assert(a =~= slots_pairs(buf0, n as int).subrange(0, pos as int) + seq![
                    (fid, val),
                ] + slots_pairs(buf0, n as int).skip(pos as int));
                lemma_insert_multiset(slots_pairs(buf0, n as int), pos as int, (fid, val));
            }
        }
    }

    /// Writes a whole slot.
    fn write_slot(&mut self, slot: usize, fid: u64, val: u64)
        requires
            (slot + 1) * 16 <= old(self).buf@.len(),
        ensures
            final(self).buf@.len() == old(self).buf@.len(),
            final(self).next_empty_slot == old(self).next_empty_slot,
            slot_fid(final(self).buf@, slot as int) == fid,
            slot_val(final(self).buf@, slot as int) == val,
            ({
                let b1 = final(self).buf@;
                let b0 = old(self).buf@;
                forall|x: int|
                    0 <= x < b1.len() && !(slot * 16 <= x < slot * 16 + 16) ==> b1[x] == b0[x]
            }),
    {
        let cap = self.buf.len();
        proof {
            let len0 = cap as int;
            let sl = slot as int;
            assert(sl * 16 + 16 <= len0) by (nonlinear_arith)
                requires
                    (sl + 1) * 16 <= len0,
                    sl >= 0,
            ;
        }
        let _ = self.set(slot * 16, fid);
        let _ = self.set(slot * 16 + 8, val);
        proof {
            crate::codec::lemma_u64_be_roundtrip(fid);
            crate::codec::lemma_u64_be_roundtrip(val);
            lemma_first8(self.buf@.skip(slot as int * 16), u64_be_bytes(fid));
            lemma_first8(self.buf@.skip(slot as int * 16 + 8), u64_be_bytes(val));
            assert(self.buf@.skip(slot as int * 16).subrange(0, 8) =~= u64_be_bytes(fid));
            assert(self.buf@.skip(slot as int * 16 + 8).subrange(0, 8) =~= u64_be_bytes(val));
        }
    }
}

/// Within a sorted prefix, a found fid is at one slot only, so the chosen
/// witness is the found index.
proof fn lemma_found_slot_unique(buf: Seq<u8>, n: int, index: int, fid: u64)
    requires
        slots_sorted(buf, n),
        0 <= index < n,
        slot_fid(buf, index) == fid,
    ensures
        forall|i: int| 0 <= i < n && slot_fid(buf, i) == fid ==> i == index,
        (choose|i: int| 0 <= i < n && slot_fid(buf, i) == fid) == index,
{
    assert forall|i: int| 0 <= i < n && slot_fid(buf, i) == fid implies i == index by {
        if i < index {
            assert(slot_fid(buf, i) < slot_fid(buf, index));
        }
        if i > index {
            assert(slot_fid(buf, index) < slot_fid(buf, i));
        }
    }
    assert(0 <= index < n && slot_fid(buf, index) == fid);
}

/// Two buffers agreeing outside one 8-byte window read the same slot
/// fields whose bytes lie outside it.
proof fn lemma_slot_reads(buf0: Seq<u8>, buf1: Seq<u8>, x: int, offset: int)
    requires
        buf0.len() == buf1.len(),
        0 <= x,
        x * 16 + 16 <= buf0.len(),
        0 <= offset,
        offset + 8 <= buf0.len(),
        forall|i: int| 0 <= i < buf1.len() && !(offset <= i < offset + 8) ==> buf1[i] == buf0[i],
        offset % 16 == 8,
    ensures
        slot_fid(buf1, x) == slot_fid(buf0, x),
        x * 16 + 8 != offset ==> slot_val(buf1, x) == slot_val(buf0, x),
{
    assert(x * 16 % 16 == 0) by (nonlinear_arith);
    assert(x * 16 != offset);
    assert(x * 16 + 8 > offset || x * 16 + 8 <= offset - 8 || x * 16 + 8 == offset) by (nonlinear_arith)
        requires
            offset % 16 == 8,
            x >= 0,
    ;
    lemma_window_reads(buf0, buf1, x * 16, offset);
    if x * 16 + 8 != offset {
        lemma_window_reads(buf0, buf1, x * 16 + 8, offset);
    }
}

/// An eight-byte read disjoint from the changed window is unchanged.
proof fn lemma_window_reads(buf0: Seq<u8>, buf1: Seq<u8>, at: int, offset: int)
    requires
        buf0.len() == buf1.len(),
        0 <= at,
        at + 8 <= buf0.len(),
        0 <= offset,
        offset + 8 <= buf0.len(),
        forall|i: int| 0 <= i < buf1.len() && !(offset <= i < offset + 8) ==> buf1[i] == buf0[i],
        at + 8 <= offset || offset + 8 <= at,
    ensures
        u64_from_be_spec(buf1.skip(at)) == u64_from_be_spec(buf0.skip(at)),
{
    assert(buf1.skip(at).subrange(0, 8) =~= buf0.skip(at).subrange(0, 8));
    lemma_first8(buf1.skip(at), buf0.skip(at).subrange(0, 8));
    lemma_first8(buf0.skip(at), buf0.skip(at).subrange(0, 8));
}

/// Reading a value depends only on the first eight bytes.
proof fn lemma_first8(s: Seq<u8>, first: Seq<u8>)
    requires
        s.len() >= 8,
        first.len() == 8,
        s.subrange(0, 8) =~= first,
    ensures
        u64_from_be_spec(s) == u64_from_be_spec(first),
{
    assert(s[0] == first[0]);
    assert(s[1] == first[1]);
    assert(s[2] == first[2]);
    assert(s[3] == first[3]);
    assert(s[4] == first[4]);
    assert(s[5] == first[5]);
    assert(s[6] == first[6]);
    assert(s[7] == first[7]);
}

/// Two buffers agreeing below `pos * 16` read the same slots there.
proof fn lemma_slot_reads_below(buf0: Seq<u8>, buf1: Seq<u8>, x: int, pos: int)
    requires
        buf0.len() == buf1.len(),
        0 <= x < pos,
        pos * 16 <= buf0.len(),
        forall|i: int| 0 <= i < pos * 16 ==> buf1[i] == buf0[i],
    ensures
        slot_fid(buf1, x) == slot_fid(buf0, x),
        slot_val(buf1, x) == slot_val(buf0, x),
{
    assert(x * 16 + 16 <= pos * 16) by (nonlinear_arith)
        requires
            x < pos,
            x >= 0,
    ;
    assert(buf1.skip(x * 16).subrange(0, 8) =~= buf0.skip(x * 16).subrange(0, 8));
    lemma_first8(buf1.skip(x * 16), buf0.skip(x * 16).subrange(0, 8));
    lemma_first8(buf0.skip(x * 16), buf0.skip(x * 16).subrange(0, 8));
    assert(buf1.skip(x * 16 + 8).subrange(0, 8) =~= buf0.skip(x * 16 + 8).subrange(0, 8));
    lemma_first8(buf1.skip(x * 16 + 8), buf0.skip(x * 16 + 8).subrange(0, 8));
    lemma_first8(buf0.skip(x * 16 + 8), buf0.skip(x * 16 + 8).subrange(0, 8));
}

/// Writing one slot leaves every other slot's reads unchanged.
proof fn lemma_write_slot_other(buf0: Seq<u8>, buf1: Seq<u8>, slot: int, x: int)
    requires
        buf0.len() == buf1.len(),
        slot >= 0,
        x >= 0,
        x != slot,
        x * 16 + 16 <= buf0.len(),
        forall|i: int|
            0 <= i < buf1.len() && !(slot * 16 <= i < slot * 16 + 16) ==> buf1[i] == buf0[i],
    ensures
        slot_fid(buf1, x) == slot_fid(buf0, x),
        slot_val(buf1, x) == slot_val(buf0, x),
{
    assert(x * 16 + 16 <= slot * 16 || slot * 16 + 16 <= x * 16) by (nonlinear_arith)
        requires
            x != slot,
            x >= 0,
            slot >= 0,
    ;
    assert(buf1.skip(x * 16).subrange(0, 8) =~= buf0.skip(x * 16).subrange(0, 8));
    lemma_first8(buf1.skip(x * 16), buf0.skip(x * 16).subrange(0, 8));
    lemma_first8(buf0.skip(x * 16), buf0.skip(x * 16).subrange(0, 8));
    assert(buf1.skip(x * 16 + 8).subrange(0, 8) =~= buf0.skip(x * 16 + 8).subrange(0, 8));
    lemma_first8(buf1.skip(x * 16 + 8), buf0.skip(x * 16 + 8).subrange(0, 8));
    lemma_first8(buf0.skip(x * 16 + 8), buf0.skip(x * 16 + 8).subrange(0, 8));
}

/// Extending a buffer does not change what its used slots read.
proof fn lemma_slots_prefix(buf0: Seq<u8>, buf1: Seq<u8>, n: int)
    requires
        buf0.len() <= buf1.len(),
        buf1.subrange(0, buf0.len() as int) =~= buf0,
        n * 16 <= buf0.len(),
        n >= 0,
    ensures
        forall|x: int|
            0 <= x < n ==> slot_fid(buf1, x) == slot_fid(buf0, x) && slot_val(buf1, x)
                == slot_val(buf0, x),
{
    assert forall|x: int|
        0 <= x < n implies slot_fid(buf1, x) == slot_fid(buf0, x) && slot_val(buf1, x)
        == slot_val(buf0, x) by {
        assert(x * 16 + 16 <= n * 16) by (nonlinear_arith)
            requires
                x < n,
                x >= 0,
        ;
        assert(buf1.skip(x * 16).subrange(0, 8) =~= buf0.skip(x * 16).subrange(0, 8));
        lemma_first8(buf1.skip(x * 16), buf0.skip(x * 16).subrange(0, 8));
        lemma_first8(buf0.skip(x * 16), buf0.skip(x * 16).subrange(0, 8));
        assert(buf1.skip(x * 16 + 8).subrange(0, 8) =~= buf0.skip(x * 16 + 8).subrange(0, 8));
        lemma_first8(buf1.skip(x * 16 + 8), buf0.skip(x * 16 + 8).subrange(0, 8));
        lemma_first8(buf0.skip(x * 16 + 8), buf0.skip(x * 16 + 8).subrange(0, 8));
    }
}

/// A multiset-preserving rewrite keeps every recorded fid recorded.
pub proof fn lemma_pair_preserved(buf0: Seq<u8>, n0: int, buf1: Seq<u8>, n1: int, pushed: (u64, u64), j: int)
    requires
        slots_pairs(buf1, n1).to_multiset() == slots_pairs(buf0, n0).push(pushed).to_multiset(),
        0 <= j < n0,
        n1 >= 0,
    ensures
        exists|j1: int|
            0 <= j1 < n1 && slot_fid(#[trigger] buf1.skip(0), j1) == slot_fid(buf0, j),
{
    broadcast use vstd::seq_lib::group_to_multiset_ensures;

    let e = (slot_fid(buf0, j), slot_val(buf0, j));
    let olds = slots_pairs(buf0, n0);
    let news = slots_pairs(buf1, n1);
    olds.to_multiset_ensures();
    news.to_multiset_ensures();
    olds.push(pushed).to_multiset_ensures();
    assert(olds[j] == e);
    assert(olds.contains(e));
    assert(olds.to_multiset().count(e) > 0);
    assert(olds.push(pushed).to_multiset().count(e) >= olds.to_multiset().count(e)) by {
        assert(olds.push(pushed).to_multiset() =~= olds.to_multiset().insert(pushed));
    }
    assert(news.to_multiset().count(e) > 0);
    assert(news.contains(e));
    let j1 = choose|j1: int| 0 <= j1 < news.len() && news[j1] == e;
    assert(buf1.skip(0) =~= buf1);
    assert(slot_fid(buf1.skip(0), j1) == e.0);
}

/// A slot index within the used range stays inside the buffer.
proof fn lemma_slot_bounds(k: int, n: int, len: int)
    requires
        k <= n,
        (n + 1) * 16 <= len,
        k >= 0,
    ensures
        (k + 1) * 16 <= len,
        k * 16 + 16 <= len,
{
    assert((k + 1) * 16 <= (n + 1) * 16) by (nonlinear_arith)
        requires
            k <= n,
    ;
}

/// Inserting in the middle and pushing at the end build the same multiset.
proof fn lemma_insert_multiset(s: Seq<(u64, u64)>, pos: int, e: (u64, u64))
    requires
        0 <= pos <= s.len(),
    ensures
        (s.subrange(0, pos) + seq![e] + s.skip(pos)).to_multiset() == s.push(e).to_multiset(),
    decreases s.len() - pos,
{
    broadcast use vstd::seq_lib::group_to_multiset_ensures;

    if pos == s.len() {
        assert(s.subrange(0, pos) =~= s);
        assert(s.skip(pos) =~= Seq::<(u64, u64)>::empty());
        assert(s.subrange(0, pos) + seq![e] + s.skip(pos) =~= s.push(e));
    } else {
        lemma_insert_multiset(s, pos + 1, e);
        let a = s.subrange(0, pos) + seq![e] + s.skip(pos);
        let b = s.subrange(0, pos + 1) + seq![e] + s.skip(pos + 1);
        let x = s[pos];
        assert(a =~= (s.subrange(0, pos) + seq![e]).push(x) + s.skip(pos + 1));
        assert(b =~= (s.subrange(0, pos).push(x) + seq![e]) + s.skip(pos + 1));
        lemma_multiset_swap_two(s.subrange(0, pos), e, x, s.skip(pos + 1));
    }
}

/// Swapping two adjacent elements keeps the multiset.
proof fn lemma_multiset_swap_two(
    front: Seq<(u64, u64)>,
    e: (u64, u64),
    x: (u64, u64),
    back: Seq<(u64, u64)>,
)
    ensures
        ((front + seq![e]).push(x) + back).to_multiset() == ((front.push(x) + seq![e])
            + back).to_multiset(),
    decreases back.len(),
{
    broadcast use vstd::seq_lib::group_to_multiset_ensures;

    if back.len() == 0 {
        assert(((front + seq![e]).push(x) + back) =~= (front + seq![e]).push(x));
        assert(((front.push(x) + seq![e]) + back) =~= (front.push(x) + seq![e]));
        assert((front + seq![e]).push(x).to_multiset() =~= front.to_multiset().insert(e).insert(
            x,
        )) by {
            assert(front + seq![e] =~= front.push(e));
        }
        assert((front.push(x) + seq![e]).to_multiset() =~= front.to_multiset().insert(x).insert(
            e,
        )) by {
            assert(front.push(x) + seq![e] =~= front.push(x).push(e));
        }
        assert(front.to_multiset().insert(e).insert(x) =~= front.to_multiset().insert(x).insert(
            e,
        ));
    } else {
        let last = back.last();
        lemma_multiset_swap_two(front, e, x, back.drop_last());
        assert(((front + seq![e]).push(x) + back) =~= ((front + seq![e]).push(x)
            + back.drop_last()).push(last));
        assert(((front.push(x) + seq![e]) + back) =~= ((front.push(x) + seq![e])
            + back.drop_last()).push(last));
    }
}

} // verus!
