//! A transaction's own pins: how often it pinned each block, and the pool
//! slot that holds it. The pool is pinned once per block, however often
//! the transaction pins it.
use crate::block_id::{BlockId, BlockModel};
use crate::buffer_mgr::{assigned, Buffer, BufferMgr};
use crate::error::{DbError, DbResult};
use vstd::prelude::*;

verus! {

/// One pinned block: its address, its pool slot and how often the
/// transaction pinned it.
pub struct PinEntry {
    pub blk: BlockId,
    pub slot: usize,
    pub count: usize,
}

/// The pins a transaction holds.
pub struct BufferList {
    pub entries: Vec<PinEntry>,
}

impl BufferList {
    /// Whether the transaction has pinned `b`.
    pub open spec fn has(&self, b: BlockModel) -> bool {
        exists|k: int| 0 <= k < self.entries@.len() && (#[trigger] self.entries@[k]).blk@ == b
    }

    /// The entry for `b`, when `has(b)`.
    pub open spec fn entry(&self, b: BlockModel) -> PinEntry {
        let k = choose|k: int| 0 <= k < self.entries@.len() && (#[trigger] self.entries@[k]).blk@ == b;
        self.entries@[k]
    }

    /// How often the transaction pinned `b` without unpinning it.
    pub open spec fn count(&self, b: BlockModel) -> nat {
        if self.has(b) {
            self.entry(b).count as nat
        } else {
            0
        }
    }

    /// Whether one of the first `i` entries is still counted and uses pool slot `j`.
    pub open spec fn uses_slot_before(&self, j: int, i: int) -> bool {
        exists|k: int|
            0 <= k < i && k < self.entries@.len() && (#[trigger] self.entries@[k]).slot == j
                && self.entries@[k].count >= 1
    }

    /// Slot `j` of `old_bm` with one pin less where one of the first `i` entries uses it.
    pub open spec fn released_before(&self, old_bm: &BufferMgr, j: int, i: int) -> Buffer {
        Buffer {
            pins: (old_bm.slots()[j].pins - if self.uses_slot_before(j, i) {
                1int
            } else {
                0int
            }) as u32,
            ..old_bm.slots()[j]
        }
    }

    /// Slot `j` of `old_bm` with one pin less where this list uses it.
    pub open spec fn released(&self, old_bm: &BufferMgr, j: int) -> Buffer {
        self.released_before(old_bm, j, self.entries@.len() as int)
    }

    /// Entries name distinct blocks.
    pub open spec fn wf(&self) -> bool {
        forall|k: int, l: int|
            0 <= k < self.entries@.len() && 0 <= l < self.entries@.len() && k != l
                ==> (#[trigger] self.entries@[k]).blk@ != (#[trigger] self.entries@[l]).blk@
    }

    /// The list is well formed, and each entry still counted names a
    /// pinned pool slot bound to its block. An entry counted zero times is
    /// released.
    pub open spec fn consistent(&self, bm: &BufferMgr) -> bool {
        &&& self.wf()
        &&& forall|k: int|
            0 <= k < self.entries@.len() && (#[trigger] self.entries@[k]).count >= 1 ==> {
                let e = self.entries@[k];
                &&& e.slot < bm.slots().len()
                &&& assigned(bm.slots()[e.slot as int]) == Some(e.blk@)
                &&& bm.slots()[e.slot as int].pins >= 1
            }
    }

    /// No pins.
    pub fn new() -> (r: BufferList)
        ensures
            r.wf(),
            r.entries@.len() == 0,
            forall|b: BlockModel| r.count(b) == 0,
    {
        BufferList { entries: Vec::new() }
    }

    fn find(&self, blk: &BlockId) -> (r: Option<usize>)
        requires
            self.wf(),
        ensures
            r is Some <==> self.has(blk@),
            r matches Some(k) ==> k < self.entries@.len() && self.entries@[k as int].blk@ == blk@
                && self.entry(blk@) == self.entries@[k as int],
    {
        let mut k: usize = 0;
        while k < self.entries.len()
            invariant
                k <= self.entries@.len(),
                forall|j: int| 0 <= j < k ==> (#[trigger] self.entries@[j]).blk@ != blk@,
                forall|a: int, b: int|
                    0 <= a < self.entries@.len() && 0 <= b < self.entries@.len() && a != b
                        ==> (#[trigger] self.entries@[a]).blk@ != (#[trigger] self.entries@[b]).blk@,
            decreases self.entries@.len() - k,
        {
            if self.entries[k].blk.same(blk) {
                proof {
                    let c = choose|c: int| 0 <= c < self.entries@.len() && (#[trigger] self.entries@[c]).blk@ == blk@;
                    if c != k {
                        assert(self.entries@[c].blk@ != self.entries@[k as int].blk@);
                    }
                }
                return Some(k);
            }
            k = k + 1;
        }
        None
    }

    /// The pool slot that holds `blk`, when the transaction has pinned it.
    pub fn get_buffer(&self, blk: &BlockId) -> (r: Option<usize>)
        requires
            self.wf(),
        ensures
            r is Some <==> self.count(blk@) > 0,
            r matches Some(s) ==> s == self.entry(blk@).slot,
    {
        match self.find(blk) {
            Some(k) => {
                if self.entries[k].count > 0 {
                    Some(self.entries[k].slot)
                } else {
                    None
                }
            },
            None => None,
        }
    }
}

impl BufferList {
    /// The entry at `k` is the one `entry` picks for its block.
    proof fn lemma_entry(&self, k: int)
        requires
            0 <= k < self.entries@.len(),
            forall|a: int, b: int|
                0 <= a < self.entries@.len() && 0 <= b < self.entries@.len() && a != b
                    ==> (#[trigger] self.entries@[a]).blk@ != (#[trigger] self.entries@[b]).blk@,
        ensures
            self.has(self.entries@[k].blk@),
            self.entry(self.entries@[k].blk@) == self.entries@[k],
    {
        let b = self.entries@[k].blk@;
        assert(self.has(b));
        let c = choose|c: int| 0 <= c < self.entries@.len() && (#[trigger] self.entries@[c]).blk@ == b;
        if c != k {
            assert(self.entries@[c].blk@ != self.entries@[k].blk@);
        }
    }

    /// After the entries changed only at `k`, and not in their blocks, the
    /// counts of the other blocks are as they were.
    proof fn lemma_others(&self, old_list: &BufferList, k: int)
        requires
            0 <= k < old_list.entries@.len(),
            self.entries@.len() == old_list.entries@.len(),
            forall|j: int| 0 <= j < self.entries@.len() && j != k ==> #[trigger] self.entries@[j] == old_list.entries@[j],
            self.entries@[k].blk@ == old_list.entries@[k].blk@,
            forall|a: int, b: int|
                0 <= a < old_list.entries@.len() && 0 <= b < old_list.entries@.len() && a != b
                    ==> (#[trigger] old_list.entries@[a]).blk@ != (#[trigger] old_list.entries@[b]).blk@,
        ensures
            forall|a: int, b: int|
                0 <= a < self.entries@.len() && 0 <= b < self.entries@.len() && a != b
                    ==> (#[trigger] self.entries@[a]).blk@ != (#[trigger] self.entries@[b]).blk@,
            forall|b: BlockModel|
                b != old_list.entries@[k].blk@ ==> #[trigger] self.count(b) == old_list.count(b),
            self.has(old_list.entries@[k].blk@),
            self.entry(old_list.entries@[k].blk@) == self.entries@[k],
    {
        assert forall|a: int, b: int|
            0 <= a < self.entries@.len() && 0 <= b < self.entries@.len() && a != b
                implies (#[trigger] self.entries@[a]).blk@ != (#[trigger] self.entries@[b]).blk@ by {
            assert(old_list.entries@[a].blk@ != old_list.entries@[b].blk@);
        }
        self.lemma_entry(k);
        assert forall|b: BlockModel| b != old_list.entries@[k].blk@ implies #[trigger] self.count(b)
            == old_list.count(b) by {
            if old_list.has(b) {
                let c = choose|c: int| 0 <= c < old_list.entries@.len() && (#[trigger] old_list.entries@[c]).blk@ == b;
                old_list.lemma_entry(c);
                self.lemma_entry(c);
            }
            if self.has(b) {
                let c = choose|c: int| 0 <= c < self.entries@.len() && (#[trigger] self.entries@[c]).blk@ == b;
                assert(old_list.entries@[c].blk@ == b);
            }
        }
    }

    /// Pins `blk` once more. The pool is pinned only when the transaction
    /// does not hold the block yet; a repeated pin only raises the count.
    pub fn pin(&mut self, bm: &mut BufferMgr, blk: &BlockId) -> (r: DbResult<()>)
        requires
            old(bm).wf(),
            old(self).consistent(old(bm)),
        ensures
            final(bm).wf(),
            final(self).consistent(final(bm)),
            old(self).count(blk@) > 0 && old(self).count(blk@) < usize::MAX ==> r is Ok && *final(bm) == *old(bm),
            r is Ok ==> final(self).count(blk@) == old(self).count(blk@) + 1,
            r is Ok && old(self).count(blk@) == 0 ==> final(self).entry(blk@).slot < final(bm).slots().len()
                && assigned(final(bm).slots()[final(self).entry(blk@).slot as int]) == Some(blk@),
            r is Err ==> forall|b: BlockModel| #[trigger] final(self).count(b) == old(self).count(b),
            forall|b: BlockModel| b != blk@ ==> #[trigger] final(self).count(b) == old(self).count(b),
            forall|b: BlockModel| old(bm).fm.has_block(b) ==> #[trigger] final(bm).current(b) == old(bm).current(b),
            final(bm).slots().len() == old(bm).slots().len(),
            forall|j: int|
                0 <= j < final(bm).slots().len() && assigned(#[trigger] final(bm).slots()[j]) != assigned(
                    old(bm).slots()[j],
                ) ==> old(bm).slots()[j].pins == 0,
            r matches Err(e) ==> e is BufferAbort || (e is Io && !old(bm).fm.has_block(blk@)),
            r is Err ==> forall|j: int|
                0 <= j < final(bm).slots().len() ==> #[trigger] final(bm).slots()[j].pins == old(bm).slots()[j].pins,
            old(self).count(blk@) == 0 ==> {
                &&& forall|j: int|
                    0 <= j < old(bm).slots().len() && assigned(#[trigger] old(bm).slots()[j]) == Some(blk@)
                        && old(bm).slots()[j].pins < u32::MAX ==> r is Ok
                &&& !old(bm).holds(blk@) && !old(bm).all_pinned() && old(bm).fm.has_block(blk@) ==> r is Ok
                &&& !old(bm).holds(blk@) && old(bm).all_pinned() ==> (r matches Err(e) && e is BufferAbort)
                &&& r is Ok ==> {
                    let i = final(self).entry(blk@).slot as int;
                    &&& final(bm).slots()[i].pins == if assigned(old(bm).slots()[i]) == Some(blk@) {
                        old(bm).slots()[i].pins + 1
                    } else {
                        1
                    }
                    &&& forall|j: int|
                        0 <= j < final(bm).slots().len() && j != i ==> #[trigger] final(bm).slots()[j].pins
                            == old(bm).slots()[j].pins
                }
            },
    {
        match self.find(blk) {
            Some(k) => {
                let c = self.entries[k].count;
                let ghost old_list = *self;
                if c > 0 {
                    if c == usize::MAX {
                        return Err(DbError::BufferAbort(String::from_str("too many pins")));
                    }
                    let slot = self.entries[k].slot;
                    let e = PinEntry { blk: self.entries[k].blk.duplicate(), slot, count: c + 1 };
                    self.entries.set(k, e);
                    proof {
                        self.lemma_others(&old_list, k as int);
                    }
                    Ok(())
                } else {
                    let slot = match bm.pin(blk) {
                        Ok(i) => i,
                        Err(e) => {
                            return Err(e);
                        },
                    };
                    let e = PinEntry { blk: blk.duplicate(), slot, count: 1 };
                    self.entries.set(k, e);
                    proof {
                        self.lemma_others(&old_list, k as int);
                        self.lemma_kept_consistent(&old_list, old(bm), bm);
                    }
                    Ok(())
                }
            },
            None => {
                let slot = match bm.pin(blk) {
                    Ok(i) => i,
                    Err(e) => {
                        return Err(e);
                    },
                };
                let ghost old_list = *self;
                self.entries.push(PinEntry { blk: blk.duplicate(), slot, count: 1 });
                proof {
                    let n = old_list.entries@.len() as int;
                    assert forall|a: int, b: int|
                        0 <= a < self.entries@.len() && 0 <= b < self.entries@.len() && a != b
                            implies (#[trigger] self.entries@[a]).blk@ != (#[trigger] self.entries@[b]).blk@ by {
                        if a == n {
                            assert(old_list.entries@[b].blk@ != blk@);
                        } else if b == n {
                            assert(old_list.entries@[a].blk@ != blk@);
                        } else {
                            assert(old_list.entries@[a].blk@ != old_list.entries@[b].blk@);
                        }
                    }
                    self.lemma_entry(n);
                    assert forall|b: BlockModel| b != blk@ implies #[trigger] self.count(b) == old_list.count(b) by {
                        if old_list.has(b) {
                            let c = choose|c: int| 0 <= c < old_list.entries@.len() && (#[trigger] old_list.entries@[c]).blk@ == b;
                            old_list.lemma_entry(c);
                            self.lemma_entry(c);
                        }
                        if self.has(b) {
                            let c = choose|c: int| 0 <= c < self.entries@.len() && (#[trigger] self.entries@[c]).blk@ == b;
                            assert(old_list.entries@[c].blk@ == b);
                        }
                    }
                    self.lemma_kept_consistent(&old_list, old(bm), bm);
                }
                Ok(())
            },
        }
    }

    /// The entries still counted, other than the last pinned one, kept
    /// their slots across a pool pin.
    proof fn lemma_kept_consistent(&self, old_list: &BufferList, old_bm: &BufferMgr, bm: &BufferMgr)
        requires
            old_list.consistent(old_bm),
            bm.slots().len() == old_bm.slots().len(),
            forall|j: int|
                0 <= j < bm.slots().len() && assigned(#[trigger] bm.slots()[j]) != assigned(old_bm.slots()[j])
                    ==> old_bm.slots()[j].pins == 0,
            forall|j: int|
                0 <= j < bm.slots().len() && old_bm.slots()[j].pins >= 1 ==> #[trigger] bm.slots()[j].pins >= 1,
            self.entries@.len() >= old_list.entries@.len(),
            forall|a: int, b: int|
                0 <= a < self.entries@.len() && 0 <= b < self.entries@.len() && a != b
                    ==> (#[trigger] self.entries@[a]).blk@ != (#[trigger] self.entries@[b]).blk@,
            forall|k: int|
                0 <= k < self.entries@.len() && (#[trigger] self.entries@[k]).count >= 1 ==> {
                    ||| (k < old_list.entries@.len() && self.entries@[k] == old_list.entries@[k])
                    ||| ({
                        let e = self.entries@[k];
                        &&& e.slot < bm.slots().len()
                        &&& assigned(bm.slots()[e.slot as int]) == Some(e.blk@)
                        &&& bm.slots()[e.slot as int].pins >= 1
                    })
                },
        ensures
            self.consistent(bm),
    {
        assert forall|k: int| 0 <= k < self.entries@.len() && (#[trigger] self.entries@[k]).count >= 1 implies {
            let e = self.entries@[k];
            &&& e.slot < bm.slots().len()
            &&& assigned(bm.slots()[e.slot as int]) == Some(e.blk@)
            &&& bm.slots()[e.slot as int].pins >= 1
        } by {
            if k < old_list.entries@.len() && self.entries@[k] == old_list.entries@[k] {
                let e = old_list.entries@[k];
                assert(old_bm.slots()[e.slot as int].pins >= 1);
                assert(bm.slots()[e.slot as int].pins >= 1);
            }
        }
    }
}

impl BufferList {
    /// Two counted entries never share a slot.
    proof fn lemma_slots_distinct(&self, bm: &BufferMgr, a: int, b: int)
        requires
            self.consistent(bm),
            0 <= a < self.entries@.len(),
            0 <= b < self.entries@.len(),
            a != b,
            self.entries@[a].count >= 1,
            self.entries@[b].count >= 1,
        ensures
            self.entries@[a].slot != self.entries@[b].slot,
    {
        assert(self.entries@[a].blk@ != self.entries@[b].blk@);
    }

    /// Takes one pin off `blk`. The pool pin is released when the count
    /// reaches zero; unpinning a block that is not pinned does nothing.
    pub fn unpin(&mut self, bm: &mut BufferMgr, blk: &BlockId)
        requires
            old(bm).wf(),
            old(self).consistent(old(bm)),
        ensures
            final(bm).wf(),
            final(self).consistent(final(bm)),
            final(self).count(blk@) == if old(self).count(blk@) > 0 {
                old(self).count(blk@) - 1
            } else {
                0
            },
            old(self).count(blk@) != 1 ==> *final(bm) == *old(bm),
            old(self).count(blk@) == 1 ==> {
                let s = old(self).entry(blk@).slot as int;
                &&& final(bm).fm == old(bm).fm
                &&& final(bm).lm == old(bm).lm
                &&& final(bm).slots() == old(bm).slots().update(
                    s,
                    Buffer { pins: (old(bm).slots()[s].pins - 1) as u32, ..old(bm).slots()[s] },
                )
            },
            forall|b: BlockModel| b != blk@ ==> #[trigger] final(self).count(b) == old(self).count(b),
    {
        match self.find(blk) {
            Some(k) => {
                let c = self.entries[k].count;
                if c == 0 {
                    return;
                }
                let slot = self.entries[k].slot;
                let ghost old_list = *self;
                if c == 1 {
                    bm.unpin(slot);
                }
                let e = PinEntry { blk: self.entries[k].blk.duplicate(), slot, count: c - 1 };
                self.entries.set(k, e);
                proof {
                    self.lemma_others(&old_list, k as int);
                    assert forall|j: int| 0 <= j < self.entries@.len() && (#[trigger] self.entries@[j]).count >= 1
                        implies {
                        let e = self.entries@[j];
                        &&& e.slot < bm.slots().len()
                        &&& assigned(bm.slots()[e.slot as int]) == Some(e.blk@)
                        &&& bm.slots()[e.slot as int].pins >= 1
                    } by {
                        if j != k {
                            old_list.lemma_slots_distinct(old(bm), j, k as int);
                        }
                    }
                }
            },
            None => {},
        }
    }

    /// Releases every pin the transaction holds: each block it still holds
    /// loses its one pool pin, whatever its count, and the list becomes empty.
    pub fn unpin_all(&mut self, bm: &mut BufferMgr)
        requires
            old(bm).wf(),
            old(self).consistent(old(bm)),
        ensures
            final(bm).wf(),
            final(self).entries@.len() == 0,
            forall|b: BlockModel| #[trigger] final(self).count(b) == 0,
            final(bm).fm == old(bm).fm,
            final(bm).lm == old(bm).lm,
            final(bm).slots().len() == old(bm).slots().len(),
            forall|j: int|
                0 <= j < final(bm).slots().len() ==> #[trigger] final(bm).slots()[j] == old(self).released(
                    old(bm),
                    j,
                ),
    {
        let n = self.entries.len();
        let mut i: usize = 0;
        while i < n
            invariant
                n == self.entries@.len(),
                i <= n,
                *self == *old(self),
                self.consistent(old(bm)),
                bm.wf(),
                bm.fm == old(bm).fm,
                bm.lm == old(bm).lm,
                bm.slots().len() == old(bm).slots().len(),
                forall|j: int|
                    0 <= j < bm.slots().len() ==> #[trigger] bm.slots()[j] == self.released_before(old(bm), j, i as int),
            decreases n - i,
        {
            if self.entries[i].count > 0 {
                let slot = self.entries[i].slot;
                proof {
                    assert forall|k: int| 0 <= k < i && (#[trigger] self.entries@[k]).slot == slot
                        implies self.entries@[k].count < 1 by {
                        if self.entries@[k].count >= 1 {
                            self.lemma_slots_distinct(old(bm), k, i as int);
                        }
                    }
                }
                let ghost before = *bm;
                bm.unpin(slot);
                proof {
                    assert forall|j: int| 0 <= j < bm.slots().len() implies #[trigger] bm.slots()[j] == self.released_before(old(bm), j, i + 1) by {
                        if j == slot as int {
                            assert(self.entries@[i as int].slot == j);
                        } else {
                            assert(bm.slots()[j] == before.slots()[j]);
                            if self.uses_slot_before(j, i + 1) {
                                let k = choose|k: int|
                                    0 <= k < i + 1 && k < self.entries@.len() && (#[trigger] self.entries@[k]).slot == j
                                        && self.entries@[k].count >= 1;
                                assert(k != i);
                            }
                        }
                    }
                }
            } else {
                proof {
                    assert forall|j: int| 0 <= j < bm.slots().len() implies #[trigger] bm.slots()[j] == self.released_before(old(bm), j, i + 1) by {
                        if self.uses_slot_before(j, i + 1) {
                            let k = choose|k: int|
                                0 <= k < i + 1 && k < self.entries@.len() && (#[trigger] self.entries@[k]).slot == j
                                    && self.entries@[k].count >= 1;
                            assert(k != i);
                        }
                    }
                }
            }
            i = i + 1;
        }
        self.entries = Vec::new();
    }
}

} // verus!
