//! The shared lock table: per block, shared locks held by any number of
//! transactions, or one exclusive lock. A request that cannot be granted
//! returns `false`; the caller waits and asks again, or gives up.
use crate::block_id::{BlockId, BlockModel};
use vstd::prelude::*;

verus! {

/// One granted lock.
pub struct Grant {
    pub blk: BlockId,
    pub tx: i32,
    pub exclusive: bool,
}

/// The granted locks.
pub struct LockTable {
    pub grants: Vec<Grant>,
}

/// Whether `g` holds a lock on `b` held by a transaction other than `t`.
pub open spec fn other_on(g: Grant, b: BlockModel, t: i32) -> bool {
    g.blk@ == b && g.tx != t
}

impl LockTable {
    /// Whether `t` holds a lock on `b` (exclusive, when `x`).
    pub open spec fn holds(&self, t: i32, b: BlockModel, x: bool) -> bool {
        exists|i: int|
            0 <= i < self.grants@.len() && (#[trigger] self.grants@[i]).blk@ == b && self.grants@[i].tx == t
                && (x ==> self.grants@[i].exclusive)
    }

    /// Whether a transaction other than `t` holds a lock on `b` (exclusive, when `x`).
    pub open spec fn held_by_other(&self, t: i32, b: BlockModel, x: bool) -> bool {
        exists|i: int|
            0 <= i < self.grants@.len() && other_on(#[trigger] self.grants@[i], b, t) && (x
                ==> self.grants@[i].exclusive)
    }

    /// Two transactions hold locks on one block only when both are shared.
    pub open spec fn wf(&self) -> bool {
        forall|i: int, j: int|
            0 <= i < self.grants@.len() && 0 <= j < self.grants@.len() && (#[trigger] self.grants@[i]).blk@
                == (#[trigger] self.grants@[j]).blk@ && self.grants@[i].tx != self.grants@[j].tx
                ==> !self.grants@[i].exclusive && !self.grants@[j].exclusive
    }

    pub fn new() -> (r: LockTable)
        ensures
            r.wf(),
            r.grants@.len() == 0,
    {
        LockTable { grants: Vec::new() }
    }

    /// Whether some other transaction holds a lock on `blk` (an exclusive
    /// one, when `only_exclusive`).
    fn conflicts(&self, tx: i32, blk: &BlockId, only_exclusive: bool) -> (r: bool)
        ensures
            r == self.held_by_other(tx, blk@, only_exclusive),
    {
        let mut i: usize = 0;
        while i < self.grants.len()
            invariant
                i <= self.grants@.len(),
                forall|j: int|
                    0 <= j < i ==> !(other_on(#[trigger] self.grants@[j], blk@, tx) && (only_exclusive
                        ==> self.grants@[j].exclusive)),
            decreases self.grants@.len() - i,
        {
            let g = &self.grants[i];
            if g.tx != tx && g.blk.same(blk) && (!only_exclusive || g.exclusive) {
                return true;
            }
            i = i + 1;
        }
        false
    }

    /// Whether `tx` already holds a lock on `blk` (an exclusive one, when `exclusive`).
    fn holding(&self, tx: i32, blk: &BlockId, exclusive: bool) -> (r: bool)
        ensures
            r == self.holds(tx, blk@, exclusive),
    {
        let mut i: usize = 0;
        while i < self.grants.len()
            invariant
                i <= self.grants@.len(),
                forall|j: int|
                    0 <= j < i ==> !((#[trigger] self.grants@[j]).blk@ == blk@ && self.grants@[j].tx == tx
                        && (exclusive ==> self.grants@[j].exclusive)),
            decreases self.grants@.len() - i,
        {
            let g = &self.grants[i];
            if g.tx == tx && g.blk.same(blk) && (!exclusive || g.exclusive) {
                return true;
            }
            i = i + 1;
        }
        false
    }

    /// Grants `tx` a shared lock on `blk` unless another transaction holds
    /// it exclusively; returns whether it was granted.
    pub fn slock(&mut self, tx: i32, blk: &BlockId) -> (r: bool)
        requires
            old(self).wf(),
        ensures
            final(self).wf(),
            r == !old(self).held_by_other(tx, blk@, true),
            r ==> final(self).holds(tx, blk@, false),
            !r || old(self).holds(tx, blk@, false) ==> *final(self) == *old(self),
            forall|t: i32, b: BlockModel, x: bool|
                #[trigger] old(self).holds(t, b, x) ==> final(self).holds(t, b, x),
            forall|t: i32, b: BlockModel, x: bool|
                #[trigger] final(self).holds(t, b, x) && (t != tx || b != blk@ || x) ==> old(self).holds(t, b, x),
    {
        if self.conflicts(tx, blk, true) {
            return false;
        }
        if self.holding(tx, blk, false) {
            return true;
        }
        self.grants.push(Grant { blk: blk.duplicate(), tx, exclusive: false });
        proof {
            let n = old(self).grants@.len() as int;
            assert(self.grants@[n].blk@ == blk@);
            assert forall|t: i32, b: BlockModel, x: bool| #[trigger] old(self).holds(t, b, x) implies self.holds(t, b, x) by {
                let i = choose|i: int| 0 <= i < old(self).grants@.len() && (#[trigger] old(self).grants@[i]).blk@ == b
                    && old(self).grants@[i].tx == t && (x ==> old(self).grants@[i].exclusive);
                assert(self.grants@[i] == old(self).grants@[i]);
            }
            assert forall|t: i32, b: BlockModel, x: bool|
                #[trigger] self.holds(t, b, x) && (t != tx || b != blk@ || x) implies old(self).holds(t, b, x) by {
                let i = choose|i: int| 0 <= i < self.grants@.len() && (#[trigger] self.grants@[i]).blk@ == b
                    && self.grants@[i].tx == t && (x ==> self.grants@[i].exclusive);
                assert(i != n);
                assert(old(self).grants@[i] == self.grants@[i]);
            }
            assert forall|i: int, j: int|
                0 <= i < self.grants@.len() && 0 <= j < self.grants@.len() && (#[trigger] self.grants@[i]).blk@
                    == (#[trigger] self.grants@[j]).blk@ && self.grants@[i].tx != self.grants@[j].tx
                    implies !self.grants@[i].exclusive && !self.grants@[j].exclusive by {
                if i == n {
                    assert(!(other_on(old(self).grants@[j], blk@, tx) && old(self).grants@[j].exclusive));
                } else if j == n {
                    assert(!(other_on(old(self).grants@[i], blk@, tx) && old(self).grants@[i].exclusive));
                }
            }
        }
        true
    }

    /// Grants `tx` an exclusive lock on `blk` unless another transaction
    /// holds any lock on it (a shared lock of `tx`'s own is upgraded);
    /// returns whether it was granted.
    pub fn xlock(&mut self, tx: i32, blk: &BlockId) -> (r: bool)
        requires
            old(self).wf(),
        ensures
            final(self).wf(),
            r == !old(self).held_by_other(tx, blk@, false),
            r ==> final(self).holds(tx, blk@, true),
            !r || old(self).holds(tx, blk@, true) ==> *final(self) == *old(self),
            forall|t: i32, b: BlockModel, x: bool|
                #[trigger] old(self).holds(t, b, x) ==> final(self).holds(t, b, x),
            forall|t: i32, b: BlockModel, x: bool|
                #[trigger] final(self).holds(t, b, x) && (t != tx || b != blk@) ==> old(self).holds(t, b, x),
    {
        if self.conflicts(tx, blk, false) {
            return false;
        }
        if self.holding(tx, blk, true) {
            return true;
        }
        self.grants.push(Grant { blk: blk.duplicate(), tx, exclusive: true });
        proof {
            let n = old(self).grants@.len() as int;
            assert(self.grants@[n].blk@ == blk@);
            assert forall|t: i32, b: BlockModel, x: bool| #[trigger] old(self).holds(t, b, x) implies self.holds(t, b, x) by {
                let i = choose|i: int| 0 <= i < old(self).grants@.len() && (#[trigger] old(self).grants@[i]).blk@ == b
                    && old(self).grants@[i].tx == t && (x ==> old(self).grants@[i].exclusive);
                assert(self.grants@[i] == old(self).grants@[i]);
            }
            assert forall|t: i32, b: BlockModel, x: bool|
                #[trigger] self.holds(t, b, x) && (t != tx || b != blk@) implies old(self).holds(t, b, x) by {
                let i = choose|i: int| 0 <= i < self.grants@.len() && (#[trigger] self.grants@[i]).blk@ == b
                    && self.grants@[i].tx == t && (x ==> self.grants@[i].exclusive);
                assert(i != n);
                assert(old(self).grants@[i] == self.grants@[i]);
            }
            assert forall|i: int, j: int|
                0 <= i < self.grants@.len() && 0 <= j < self.grants@.len() && (#[trigger] self.grants@[i]).blk@
                    == (#[trigger] self.grants@[j]).blk@ && self.grants@[i].tx != self.grants@[j].tx
                    implies !self.grants@[i].exclusive && !self.grants@[j].exclusive by {
                if i == n {
                    assert(!other_on(old(self).grants@[j], blk@, tx));
                } else if j == n {
                    assert(!other_on(old(self).grants@[i], blk@, tx));
                }
            }
        }
        true
    }

    /// Releases every lock of `tx`; the locks of the others stay.
    pub fn release_all(&mut self, tx: i32)
        requires
            old(self).wf(),
        ensures
            final(self).wf(),
            forall|b: BlockModel, x: bool| !#[trigger] final(self).holds(tx, b, x),
            forall|t: i32, b: BlockModel, x: bool|
                t != tx ==> (#[trigger] final(self).holds(t, b, x) == old(self).holds(t, b, x)),
    {
        let mut kept: Vec<Grant> = Vec::new();
        let mut i: usize = 0;
        while i < self.grants.len()
            invariant
                old(self).wf(),
                *self == *old(self),
                i <= self.grants@.len(),
                forall|k: int|
                    #![trigger kept@[k]]
                    0 <= k < kept@.len() ==> kept@[k].tx != tx && exists|j: int|
                        0 <= j < i && kept@[k] == #[trigger] self.grants@[j],
                forall|j: int|
                    0 <= j < i && (#[trigger] self.grants@[j]).tx != tx ==> exists|k: int|
                        0 <= k < kept@.len() && #[trigger] kept@[k] == self.grants@[j],
            decreases self.grants@.len() - i,
        {
            if self.grants[i].tx != tx {
                let g = Grant {
                    blk: self.grants[i].blk.duplicate(),
                    tx: self.grants[i].tx,
                    exclusive: self.grants[i].exclusive,
                };
                assert(g == self.grants@[i as int]);
                let ghost kept0 = kept@;
                kept.push(g);
                proof {
                    let n = kept@.len() - 1;
                    assert forall|k: int| 0 <= k < kept@.len() implies #[trigger] kept@[k].tx != tx && exists|j: int|
                        0 <= j < i + 1 && kept@[k] == #[trigger] self.grants@[j] by {
                        if k == n {
                            assert(kept@[k] == self.grants@[i as int]);
                        } else {
                            assert(kept@[k] == kept0[k]);
                            assert(kept0[k].tx != tx);
                            assert(exists|j: int| 0 <= j < i && kept0[k] == #[trigger] self.grants@[j]);
                            let j = choose|j: int| 0 <= j < i && kept0[k] == #[trigger] self.grants@[j];
                            assert(kept@[k] == self.grants@[j]);
                        }
                    }
                    assert forall|j: int| 0 <= j < i + 1 && (#[trigger] self.grants@[j]).tx != tx implies exists|k: int|
                        0 <= k < kept@.len() && #[trigger] kept@[k] == self.grants@[j] by {
                        if j == i {
                            assert(kept@[n] == self.grants@[j]);
                        } else {
                            let k = choose|k: int| 0 <= k < kept0.len() && #[trigger] kept0[k] == self.grants@[j];
                            assert(kept@[k] == self.grants@[j]);
                        }
                    }
                }
            } else {
                proof {
                    assert forall|k: int| 0 <= k < kept@.len() implies #[trigger] kept@[k].tx != tx && exists|j: int|
                        0 <= j < i + 1 && kept@[k] == #[trigger] self.grants@[j] by {
                        assert(kept@[k].tx != tx);
                        let j = choose|j: int| 0 <= j < i && kept@[k] == #[trigger] self.grants@[j];
                        assert(kept@[k] == self.grants@[j]);
                    }
                }
            }
            i = i + 1;
        }
        let ghost g0 = self.grants@;
        self.grants = kept;
        proof {
            assert forall|i: int, j: int|
                0 <= i < self.grants@.len() && 0 <= j < self.grants@.len() && (#[trigger] self.grants@[i]).blk@
                    == (#[trigger] self.grants@[j]).blk@ && self.grants@[i].tx != self.grants@[j].tx
                    implies !self.grants@[i].exclusive && !self.grants@[j].exclusive by {
                let a = choose|a: int| 0 <= a < g0.len() && self.grants@[i] == #[trigger] g0[a];
                let b = choose|b: int| 0 <= b < g0.len() && self.grants@[j] == #[trigger] g0[b];
                assert(g0[a].blk@ == g0[b].blk@);
            }
            assert forall|b: BlockModel, x: bool| !#[trigger] self.holds(tx, b, x) by {
                if self.holds(tx, b, x) {
                    let i = choose|i: int| 0 <= i < self.grants@.len() && (#[trigger] self.grants@[i]).blk@ == b
                        && self.grants@[i].tx == tx && (x ==> self.grants@[i].exclusive);
                    assert(self.grants@[i].tx != tx);
                }
            }
            assert forall|t: i32, b: BlockModel, x: bool|
                t != tx implies (#[trigger] self.holds(t, b, x) == old(self).holds(t, b, x)) by {
                if self.holds(t, b, x) {
                    let i = choose|i: int| 0 <= i < self.grants@.len() && (#[trigger] self.grants@[i]).blk@ == b
                        && self.grants@[i].tx == t && (x ==> self.grants@[i].exclusive);
                    let a = choose|a: int| 0 <= a < g0.len() && self.grants@[i] == #[trigger] g0[a];
                    assert(old(self).grants@[a] == self.grants@[i]);
                }
                if old(self).holds(t, b, x) {
                    let a = choose|a: int| 0 <= a < g0.len() && (#[trigger] g0[a]).blk@ == b
                        && g0[a].tx == t && (x ==> g0[a].exclusive);
                    let k = choose|k: int| 0 <= k < self.grants@.len() && #[trigger] self.grants@[k] == g0[a];
                    assert(self.grants@[k].blk@ == b);
                }
            }
        }
    }
}

} // verus!

verus! {

/// While one transaction holds an exclusive lock on a block, no other
/// transaction holds any lock on it, exclusive or shared.
pub proof fn lemma_exclusive_excludes(lt: &LockTable, t1: i32, t2: i32, b: BlockModel)
    requires
        lt.wf(),
        t1 != t2,
        lt.holds(t1, b, true),
    ensures
        !lt.holds(t2, b, false),
        !lt.holds(t2, b, true),
{
    let i = choose|i: int|
        0 <= i < lt.grants@.len() && (#[trigger] lt.grants@[i]).blk@ == b && lt.grants@[i].tx == t1
            && lt.grants@[i].exclusive;
    if lt.holds(t2, b, false) {
        let j = choose|j: int|
            0 <= j < lt.grants@.len() && (#[trigger] lt.grants@[j]).blk@ == b && lt.grants@[j].tx == t2;
        assert(!lt.grants@[i].exclusive);
    }
}

} // verus!
