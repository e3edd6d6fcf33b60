//! The buffer pool: a fixed number of pages, each bound to at most one
//! block, pinned while in use and replaced only when unpinned.
use crate::block_id::{BlockId, BlockModel};
use crate::codec::i32_bytes;
use crate::error::DbError;
use crate::file_mgr::FileMgr;
use crate::log_mgr::LogMgr;
use crate::page::{overwrite, string_bytes, Page};
use vstd::prelude::*;
use vstd::utf8::*;

verus! {

/// One slot of the pool.
pub struct Buffer {
    pub page: Page,
    pub blk: Option<BlockId>,
    pub pins: u32,
    /// The transaction that last modified the page; -1 when the page is clean.
    pub txnum: i32,
    /// The LSN of the log record of the last modification.
    pub lsn: usize,
}

/// The block a slot is bound to.
pub open spec fn assigned(b: Buffer) -> Option<BlockModel> {
    match b.blk {
        Some(x) => Some(x@),
        None => None,
    }
}

/// How many slots of `s` are unpinned.
pub open spec fn count_unpinned(s: Seq<Buffer>) -> nat
    decreases s.len(),
{
    if s.len() == 0 {
        0
    } else {
        count_unpinned(s.drop_last()) + if s.last().pins == 0 {
            1nat
        } else {
            0nat
        }
    }
}

/// Two pools over one store whose slots are bound alike and hold the same
/// pages, but maybe at slot `i`, agree on the current contents of every
/// block other than slot `i`'s.
pub(crate) proof fn same_binding_current(a: &BufferMgr, b: &BufferMgr, i: int)
    requires
        a.wf(),
        b.wf(),
        a.fm == b.fm,
        a.slots().len() == b.slots().len(),
        forall|j: int| 0 <= j < a.slots().len() ==> assigned(#[trigger] b.slots()[j]) == assigned(a.slots()[j]),
        forall|j: int| 0 <= j < a.slots().len() && j != i ==> (#[trigger] b.slots()[j]).page == a.slots()[j].page,
    ensures
        forall|x: BlockModel|
            (0 <= i < a.slots().len() ==> x != assigned(a.slots()[i])->0) ==> #[trigger] b.current(x) == a.current(x),
{
    assert forall|x: BlockModel|
        (0 <= i < a.slots().len() ==> x != assigned(a.slots()[i])->0) implies #[trigger] b.current(x) == a.current(x) by {
        if a.holds(x) {
            let j = choose|j: int| 0 <= j < a.slots().len() && assigned(#[trigger] a.slots()[j]) == Some(x);
            a.lemma_current_at(j);
            assert(assigned(b.slots()[j]) == Some(x));
            b.lemma_current_at(j);
        } else if b.holds(x) {
            let j = choose|j: int| 0 <= j < b.slots().len() && assigned(#[trigger] b.slots()[j]) == Some(x);
            assert(assigned(a.slots()[j]) == Some(x));
        }
    }
}

/// Room in a pool depends only on its pin counts.
pub proof fn lemma_room_same_pins(a: &BufferMgr, b: &BufferMgr)
    requires
        a.has_room(),
        a.slots().len() == b.slots().len(),
        forall|j: int| 0 <= j < a.slots().len() ==> #[trigger] b.slots()[j].pins == a.slots()[j].pins,
    ensures
        b.has_room(),
{
    let j0 = choose|j: int| 0 <= j < a.slots().len() && !(#[trigger] a.slots()[j].pins > 0);
    assert(!(b.slots()[j0].pins > 0));
    assert forall|j: int| 0 <= j < b.slots().len() implies #[trigger] b.slots()[j].pins < u32::MAX by {
        assert(a.slots()[j].pins < u32::MAX);
    }
}

/// The pool, the store it reads and writes, and the log it flushes.
pub struct BufferMgr {
    pub pool: Vec<Buffer>,
    pub fm: FileMgr,
    pub lm: LogMgr,
}

impl BufferMgr {
    /// The slots in order.
    pub open spec fn slots(&self) -> Seq<Buffer> {
        self.pool@
    }

    /// Whether some slot is bound to `blk`.
    pub open spec fn holds(&self, blk: BlockModel) -> bool {
        exists|j: int| 0 <= j < self.slots().len() && assigned(#[trigger] self.slots()[j]) == Some(blk)
    }

    /// The block's contents as the engine sees them: the page of the slot
    /// bound to it, or else the stored block.
    pub open spec fn current(&self, b: BlockModel) -> Seq<u8> {
        if self.holds(b) {
            let j = choose|j: int| 0 <= j < self.slots().len() && assigned(#[trigger] self.slots()[j]) == Some(b);
            self.slots()[j].page@
        } else {
            self.fm.block(b)
        }
    }

    /// The slot bound to a block holds its current contents.
    pub proof fn lemma_current_at(&self, j: int)
        requires
            self.wf(),
            0 <= j < self.slots().len(),
            assigned(self.slots()[j]) is Some,
        ensures
            self.current(assigned(self.slots()[j])->0) == self.slots()[j].page@,
    {
        let b = assigned(self.slots()[j])->0;
        assert(self.holds(b));
        let k = choose|k: int| 0 <= k < self.slots().len() && assigned(#[trigger] self.slots()[k]) == Some(b);
        if k != j {
            assert(assigned(self.slots()[k]) != assigned(self.slots()[j]));
        }
    }

    /// Whether any block can be pinned: some slot is unpinned and no slot
    /// has reached the largest pin count.
    pub open spec fn has_room(&self) -> bool {
        &&& !self.all_pinned()
        &&& forall|j: int| 0 <= j < self.slots().len() ==> #[trigger] self.slots()[j].pins < u32::MAX
    }

    /// Whether every slot is pinned.
    pub open spec fn all_pinned(&self) -> bool {
        forall|j: int| 0 <= j < self.slots().len() ==> #[trigger] self.slots()[j].pins > 0
    }

    /// Pages have the block size, bound blocks exist and are distinct, and
    /// only bound slots are pinned or dirty.
    pub open spec fn wf(&self) -> bool {
        &&& self.fm.wf()
        &&& self.lm.wf()
        &&& forall|j: int|
            0 <= j < self.slots().len() ==> (#[trigger] self.slots()[j]).page@.len()
                == self.fm.spec_block_size()
        &&& forall|j: int|
            0 <= j < self.slots().len() && #[trigger] assigned(self.slots()[j]) is Some
                ==> self.fm.has_block(assigned(self.slots()[j])->0)
        &&& forall|j: int|
            0 <= j < self.slots().len() && (#[trigger] self.slots()[j]).blk is None ==> {
                &&& self.slots()[j].pins == 0
                &&& self.slots()[j].txnum < 0
            }
        &&& forall|j: int, k: int|
            0 <= j < self.slots().len() && 0 <= k < self.slots().len() && j != k && assigned(
                #[trigger] self.slots()[j],
            ) is Some ==> assigned(self.slots()[j]) != assigned(#[trigger] self.slots()[k])
        &&& forall|j: int|
            0 <= j < self.slots().len() && #[trigger] assigned(self.slots()[j]) is Some
                && self.slots()[j].txnum < 0 ==> self.slots()[j].page@ == self.fm.block(
                assigned(self.slots()[j])->0,
            )
    }

    /// A pool of `n` clean, unbound slots over the given store and log.
    pub fn new(fm: FileMgr, lm: LogMgr, n: usize) -> (r: BufferMgr)
        requires
            fm.wf(),
            lm.wf(),
        ensures
            r.wf(),
            r.fm == fm,
            r.lm == lm,
            r.slots().len() == n,
            forall|j: int| 0 <= j < n ==> (#[trigger] r.slots()[j]).blk is None,
    {
        let mut pool: Vec<Buffer> = Vec::new();
        let mut i: usize = 0;
        while i < n
            invariant
                i <= n,
                pool@.len() == i,
                forall|j: int|
                    0 <= j < i ==> (#[trigger] pool@[j]).blk is None && pool@[j].pins == 0
                        && pool@[j].txnum < 0 && pool@[j].page@.len() == fm.spec_block_size(),
            decreases n - i,
        {
            pool.push(Buffer { page: Page::new(fm.block_size()), blk: None, pins: 0, txnum: -1, lsn: 0 });
            i = i + 1;
        }
        BufferMgr { pool, fm, lm }
    }

    /// The number of slots.
    pub fn size(&self) -> (r: usize)
        ensures
            r == self.slots().len(),
    {
        self.pool.len()
    }

    /// The slot at `i`.
    pub fn buffer(&self, i: usize) -> (r: &Buffer)
        requires
            i < self.slots().len(),
        ensures
            *r == self.slots()[i as int],
    {
        &self.pool[i]
    }

    /// The number of unpinned slots.
    pub fn available(&self) -> (r: usize)
        ensures
            r == count_unpinned(self.slots()),
    {
        let mut c: usize = 0;
        let mut i: usize = 0;
        while i < self.pool.len()
            invariant
                i <= self.pool@.len(),
                c == count_unpinned(self.pool@.take(i as int)),
                c <= i,
            decreases self.pool@.len() - i,
        {
            assert(self.pool@.take(i + 1).drop_last() =~= self.pool@.take(i as int));
            if self.pool[i].pins == 0 {
                c = c + 1;
            }
            i = i + 1;
        }
        assert(self.pool@.take(i as int) =~= self.pool@);
        c
    }

    /// The slot bound to `blk`, if any.
    fn find_block(&self, blk: &BlockId) -> (r: Option<usize>)
        requires
            self.wf(),
        ensures
            r is Some <==> self.holds(blk@),
            r matches Some(i) ==> i < self.slots().len() && assigned(self.slots()[i as int]) == Some(blk@),
    {
        let mut i: usize = 0;
        while i < self.pool.len()
            invariant
                i <= self.pool@.len(),
                forall|j: int| 0 <= j < i ==> assigned(#[trigger] self.pool@[j]) != Some(blk@),
            decreases self.pool@.len() - i,
        {
            match &self.pool[i].blk {
                Some(b) => {
                    if b.same(blk) {
                        return Some(i);
                    }
                },
                None => {},
            }
            i = i + 1;
        }
        None
    }

    /// The first unpinned slot, if any.
    fn find_unpinned(&self) -> (r: Option<usize>)
        ensures
            r is Some <==> !self.all_pinned(),
            r matches Some(i) ==> i < self.slots().len() && self.slots()[i as int].pins == 0,
    {
        let mut i: usize = 0;
        while i < self.pool.len()
            invariant
                i <= self.pool@.len(),
                forall|j: int| 0 <= j < i ==> (#[trigger] self.pool@[j]).pins > 0,
            decreases self.pool@.len() - i,
        {
            if self.pool[i].pins == 0 {
                return Some(i);
            }
            i = i + 1;
        }
        None
    }
}

impl BufferMgr {
    /// Writes slot `i`'s page to its block when the page is dirty, after
    /// making the log durable up to the page's LSN; the page becomes clean.
    fn flush_slot(&mut self, i: usize)
        requires
            old(self).wf(),
            i < old(self).slots().len(),
        ensures
            final(self).wf(),
            final(self).slots().len() == old(self).slots().len(),
            forall|j: int|
                0 <= j < final(self).slots().len() ==> {
                    &&& (#[trigger] final(self).slots()[j]).page == old(self).slots()[j].page
                    &&& final(self).slots()[j].blk == old(self).slots()[j].blk
                    &&& final(self).slots()[j].pins == old(self).slots()[j].pins
                    &&& j != i ==> final(self).slots()[j].txnum == old(self).slots()[j].txnum
                    &&& j != i ==> final(self).slots()[j].lsn == old(self).slots()[j].lsn
                },
            final(self).slots()[i as int].txnum < 0,
            old(self).slots()[i as int].txnum >= 0 ==> forall|n: Seq<char>|
                #[trigger] final(self).fm.file(n) == if n == assigned(old(self).slots()[i as int])->0.filename {
                    old(self).fm.file(n).update(
                        assigned(old(self).slots()[i as int])->0.number as int,
                        old(self).slots()[i as int].page@,
                    )
                } else {
                    old(self).fm.file(n)
                },
            old(self).slots()[i as int].txnum >= 0 ==> final(self).lm.durable() >= old(self).slots()[i as int].lsn
                || final(self).lm.durable() == final(self).lm.records().len(),
            old(self).slots()[i as int].txnum < 0 ==> final(self).fm == old(self).fm,
            forall|b: BlockModel| #[trigger] final(self).fm.has_block(b) == old(self).fm.has_block(b),
            forall|b: BlockModel| old(self).fm.has_block(b) ==> #[trigger] final(self).current(b) == old(self).current(b),
            final(self).fm.spec_block_size() == old(self).fm.spec_block_size(),
            final(self).lm.records() == old(self).lm.records(),
    {
        if self.pool[i].txnum >= 0 {
            let lsn = self.pool[i].lsn;
            self.lm.flush(lsn);
            match &self.pool[i].blk {
                Some(b) => {
                    proof {
                        self.fm.lemma_block_len(b@);
                    }
                    let _ = self.fm.write(b, &self.pool[i].page);
                },
                None => {},
            }
            let mut buf = self.pool.remove(i);
            buf.txnum = -1;
            self.pool.insert(i, buf);
            proof {
                assert forall|b: BlockModel| #[trigger] self.fm.has_block(b) == old(self).fm.has_block(b) by {
                    assert(self.fm.file(b.filename).len() == old(self).fm.file(b.filename).len());
                }
                assert forall|j: int| 0 <= j < self.slots().len() && #[trigger] assigned(self.slots()[j]) is Some
                    implies self.fm.has_block(assigned(self.slots()[j])->0) by {
                    assert(assigned(self.slots()[j]) == assigned(old(self).slots()[j]));
                }
                assert forall|j: int, k: int|
                    0 <= j < self.slots().len() && 0 <= k < self.slots().len() && j != k && assigned(
                        #[trigger] self.slots()[j],
                    ) is Some implies assigned(self.slots()[j]) != assigned(#[trigger] self.slots()[k]) by {
                    assert(assigned(self.slots()[j]) == assigned(old(self).slots()[j]));
                    assert(assigned(self.slots()[k]) == assigned(old(self).slots()[k]));
                }
                assert forall|b: BlockModel| old(self).fm.has_block(b) implies #[trigger] self.current(b)
                    == old(self).current(b) by {
                    if old(self).holds(b) {
                        let j = choose|j: int| 0 <= j < old(self).slots().len() && assigned(#[trigger] old(self).slots()[j]) == Some(b);
                        old(self).lemma_current_at(j);
                        assert(assigned(self.slots()[j]) == Some(b));
                        self.lemma_current_at(j);
                    } else {
                        if self.holds(b) {
                            let j = choose|j: int| 0 <= j < self.slots().len() && assigned(#[trigger] self.slots()[j]) == Some(b);
                            assert(assigned(old(self).slots()[j]) == Some(b));
                        }
                        let bi = assigned(old(self).slots()[i as int])->0;
                        assert(b != bi);
                    }
                }
            }
        }
    }

    /// Pins `blk`: the slot already bound to it gains a pin; otherwise an
    /// unpinned slot is flushed, loaded with the block and pinned once.
    /// Fails with a buffer abort when every slot is pinned, and with an I/O
    /// error when the block does not exist.
    pub fn pin(&mut self, blk: &BlockId) -> (r: Result<usize, DbError>)
        requires
            old(self).wf(),
        ensures
            final(self).wf(),
            final(self).slots().len() == old(self).slots().len(),
            forall|j: int|
                0 <= j < final(self).slots().len() && assigned(#[trigger] final(self).slots()[j]) != assigned(
                    old(self).slots()[j],
                ) ==> old(self).slots()[j].pins == 0,
            r matches Ok(i) ==> {
                &&& i < final(self).slots().len()
                &&& assigned(final(self).slots()[i as int]) == Some(blk@)
                &&& final(self).slots()[i as int].pins == if assigned(old(self).slots()[i as int]) == Some(blk@) {
                    old(self).slots()[i as int].pins + 1
                } else {
                    1
                }
                &&& final(self).slots()[i as int].page@ == old(self).current(blk@)
                &&& forall|j: int|
                    0 <= j < final(self).slots().len() && j != i ==> #[trigger] final(self).slots()[j].pins
                        == old(self).slots()[j].pins
            },
            r is Err ==> forall|j: int|
                0 <= j < final(self).slots().len() ==> #[trigger] final(self).slots()[j].pins
                    == old(self).slots()[j].pins,
            forall|j: int|
                0 <= j < old(self).slots().len() && assigned(#[trigger] old(self).slots()[j]) == Some(blk@)
                    && old(self).slots()[j].pins < u32::MAX ==> r == Ok::<usize, DbError>(j as usize),
            !old(self).holds(blk@) && !old(self).all_pinned() && old(self).fm.has_block(blk@) ==> r is Ok,
            !old(self).holds(blk@) && old(self).all_pinned() ==> (r matches Err(e) && e is BufferAbort),
            r matches Err(e) ==> e is BufferAbort || (e is Io && !old(self).fm.has_block(blk@)),
            forall|b: BlockModel| #[trigger] final(self).fm.has_block(b) == old(self).fm.has_block(b),
            forall|b: BlockModel| old(self).fm.has_block(b) ==> #[trigger] final(self).current(b) == old(self).current(b),
            final(self).fm.spec_block_size() == old(self).fm.spec_block_size(),
            final(self).lm.records() == old(self).lm.records(),
    {
        match self.find_block(blk) {
            Some(i) => {
                proof {
                    assert forall|j: int|
                        0 <= j < old(self).slots().len() && assigned(#[trigger] old(self).slots()[j]) == Some(blk@)
                        implies j == i by {
                        if j != i {
                            assert(assigned(old(self).slots()[j]) != assigned(old(self).slots()[i as int]));
                        }
                    }
                }
                if self.pool[i].pins == u32::MAX {
                    return Err(DbError::BufferAbort(String::from_str("too many pins")));
                }
                let mut buf = self.pool.remove(i);
                buf.pins = buf.pins + 1;
                self.pool.insert(i, buf);
                proof {
                    assert forall|j: int| 0 <= j < self.slots().len() && j != i implies #[trigger] self.slots()[j]
                        == old(self).slots()[j] by {}
                    old(self).lemma_current_at(i as int);
                    assert forall|b: BlockModel| old(self).fm.has_block(b) implies #[trigger] self.current(b)
                        == old(self).current(b) by {
                        if old(self).holds(b) {
                            let j = choose|j: int| 0 <= j < old(self).slots().len() && assigned(#[trigger] old(self).slots()[j]) == Some(b);
                            old(self).lemma_current_at(j);
                            assert(assigned(self.slots()[j]) == Some(b));
                            self.lemma_current_at(j);
                        } else if self.holds(b) {
                            let j = choose|j: int| 0 <= j < self.slots().len() && assigned(#[trigger] self.slots()[j]) == Some(b);
                            assert(assigned(old(self).slots()[j]) == Some(b));
                        }
                    }
                }
                Ok(i)
            },
            None => match self.find_unpinned() {
                None => Err(DbError::BufferAbort(String::from_str("no unpinned buffer"))),
                Some(i) => {
                    self.flush_slot(i);
                    let page = self.fm.read(blk)?;
                    proof {
                        self.fm.lemma_block_len(blk@);
                        assert(!self.holds(blk@)) by {
                            if self.holds(blk@) {
                                let j = choose|j: int| 0 <= j < self.slots().len() && assigned(#[trigger] self.slots()[j]) == Some(blk@);
                                assert(assigned(old(self).slots()[j]) == Some(blk@));
                            }
                        }
                    }
                    let ghost mid = *self;
                    let mut buf = self.pool.remove(i);
                    buf.page = page;
                    buf.blk = Some(blk.duplicate());
                    buf.pins = 1;
                    buf.txnum = -1;
                    self.pool.insert(i, buf);
                    proof {
                        assert forall|j: int| 0 <= j < self.slots().len() && j != i implies #[trigger] self.slots()[j]
                            == mid.slots()[j] by {}
                        assert(assigned(self.slots()[i as int]) == Some(blk@));
                        assert forall|j: int, k: int|
                            0 <= j < self.slots().len() && 0 <= k < self.slots().len() && j != k && assigned(
                                #[trigger] self.slots()[j],
                            ) is Some implies assigned(self.slots()[j]) != assigned(#[trigger] self.slots()[k]) by {
                            if j == i {
                                assert(assigned(self.slots()[k]) == assigned(old(self).slots()[k]));
                            } else if k == i {
                                assert(assigned(self.slots()[j]) == assigned(old(self).slots()[j]));
                            } else {
                                assert(assigned(mid.slots()[j]) != assigned(mid.slots()[k]));
                            }
                        }
                        self.lemma_current_at(i as int);
                        assert forall|b: BlockModel| old(self).fm.has_block(b) implies #[trigger] self.current(b)
                            == old(self).current(b) by {
                            assert(mid.current(b) == old(self).current(b));
                            if b == blk@ {
                            } else if mid.holds(b) {
                                let j = choose|j: int| 0 <= j < mid.slots().len() && assigned(#[trigger] mid.slots()[j]) == Some(b);
                                mid.lemma_current_at(j);
                                if j == i {
                                    // the slot was clean after the flush, so the store holds its page
                                    assert(mid.slots()[j].txnum < 0);
                                    if self.holds(b) {
                                        let k = choose|k: int| 0 <= k < self.slots().len() && assigned(#[trigger] self.slots()[k]) == Some(b);
                                        assert(k != i);
                                        assert(assigned(mid.slots()[k]) == Some(b));
                                        assert(assigned(mid.slots()[k]) != assigned(mid.slots()[j]));
                                    }
                                } else {
                                    assert(assigned(self.slots()[j]) == Some(b));
                                    self.lemma_current_at(j);
                                }
                            } else {
                                if self.holds(b) {
                                    let k = choose|k: int| 0 <= k < self.slots().len() && assigned(#[trigger] self.slots()[k]) == Some(b);
                                    assert(k != i);
                                    assert(assigned(mid.slots()[k]) == Some(b));
                                }
                            }
                        }
                    }
                    Ok(i)
                },
            },
        }
    }

    /// Takes one pin off slot `i`; at zero pins the slot may be replaced.
    pub fn unpin(&mut self, i: usize)
        requires
            old(self).wf(),
            i < old(self).slots().len(),
            old(self).slots()[i as int].pins > 0,
        ensures
            final(self).wf(),
            final(self).fm == old(self).fm,
            final(self).lm == old(self).lm,
            final(self).slots() == old(self).slots().update(
                i as int,
                Buffer { pins: (old(self).slots()[i as int].pins - 1) as u32, ..old(self).slots()[i as int] },
            ),
            forall|b: BlockModel| #[trigger] final(self).current(b) == old(self).current(b),
    {
        let mut buf = self.pool.remove(i);
        buf.pins = buf.pins - 1;
        self.pool.insert(i, buf);
        proof {
            assert(self.slots() =~= old(self).slots().update(
                i as int,
                Buffer { pins: (old(self).slots()[i as int].pins - 1) as u32, ..old(self).slots()[i as int] },
            ));
            assert forall|j: int, k: int|
                0 <= j < self.slots().len() && 0 <= k < self.slots().len() && j != k && assigned(
                    #[trigger] self.slots()[j],
                ) is Some implies assigned(self.slots()[j]) != assigned(#[trigger] self.slots()[k]) by {
                assert(assigned(self.slots()[j]) == assigned(old(self).slots()[j]));
                assert(assigned(self.slots()[k]) == assigned(old(self).slots()[k]));
            }
            same_binding_current(old(self), self, -1);
        }
    }
}

impl BufferMgr {
    /// The integer at `offset` of slot `i`'s page.
    pub fn get_int(&self, i: usize, offset: usize) -> (r: i32)
        requires
            i < self.slots().len(),
            offset + 4 <= self.slots()[i as int].page@.len(),
        ensures
            r == crate::codec::i32_of(self.slots()[i as int].page@.subrange(offset as int, self.slots()[i as int].page@.len() as int)),
    {
        self.pool[i].page.get_int(offset)
    }

    /// The string at `offset` of slot `i`'s page.
    pub fn get_string(&self, i: usize, offset: usize) -> (r: Option<String>)
        requires
            i < self.slots().len(),
        ensures
            r is Some <==> crate::page::string_at_ok(self.slots()[i as int].page@, offset as int),
            r matches Some(s) ==> s@ == crate::page::string_at(self.slots()[i as int].page@, offset as int),
    {
        self.pool[i].page.get_string(offset)
    }

    /// Replaces slot `i`'s page by `page` and records who modified it and
    /// the LSN of the log record that describes the change.
    fn modify(&mut self, i: usize, page: Page, txnum: i32, lsn: usize)
        requires
            old(self).wf(),
            txnum >= 0,
            i < old(self).slots().len(),
            old(self).slots()[i as int].blk is Some,
            page@.len() == old(self).fm.spec_block_size(),
        ensures
            final(self).wf(),
            final(self).fm == old(self).fm,
            final(self).lm == old(self).lm,
            final(self).slots() == old(self).slots().update(
                i as int,
                Buffer { page, txnum, lsn, ..old(self).slots()[i as int] },
            ),
            final(self).current(assigned(old(self).slots()[i as int])->0) == page@,
            forall|b: BlockModel|
                b != assigned(old(self).slots()[i as int])->0 ==> #[trigger] final(self).current(b)
                    == old(self).current(b),
    {
        let mut buf = self.pool.remove(i);
        buf.page = page;
        buf.txnum = txnum;
        buf.lsn = lsn;
        self.pool.insert(i, buf);
        proof {
            assert(self.slots() =~= old(self).slots().update(
                i as int,
                Buffer { page, txnum, lsn, ..old(self).slots()[i as int] },
            ));
            assert forall|j: int, k: int|
                0 <= j < self.slots().len() && 0 <= k < self.slots().len() && j != k && assigned(
                    #[trigger] self.slots()[j],
                ) is Some implies assigned(self.slots()[j]) != assigned(#[trigger] self.slots()[k]) by {
                assert(assigned(self.slots()[j]) == assigned(old(self).slots()[j]));
                assert(assigned(self.slots()[k]) == assigned(old(self).slots()[k]));
            }
            self.lemma_current_at(i as int);
            same_binding_current(old(self), self, i as int);
        }
    }

    /// Writes `val` at `offset` of slot `i`'s page, marking the page dirty
    /// for `txnum` with the LSN of the change's log record.
    pub fn set_int(&mut self, i: usize, offset: usize, val: i32, txnum: i32, lsn: usize)
        requires
            old(self).wf(),
            txnum >= 0,
            i < old(self).slots().len(),
            old(self).slots()[i as int].blk is Some,
            offset + 4 <= old(self).fm.spec_block_size(),
        ensures
            final(self).wf(),
            final(self).fm == old(self).fm,
            final(self).lm == old(self).lm,
            final(self).slots().len() == old(self).slots().len(),
            final(self).slots()[i as int].page@ == overwrite(old(self).slots()[i as int].page@, offset as int, i32_bytes(val)),
            final(self).current(assigned(old(self).slots()[i as int])->0) == final(self).slots()[i as int].page@,
            forall|b: BlockModel|
                b != assigned(old(self).slots()[i as int])->0 ==> #[trigger] final(self).current(b)
                    == old(self).current(b),
            final(self).slots()[i as int].blk == old(self).slots()[i as int].blk,
            final(self).slots()[i as int].pins == old(self).slots()[i as int].pins,
            final(self).slots()[i as int].txnum == txnum,
            final(self).slots()[i as int].lsn == lsn,
            forall|j: int| 0 <= j < final(self).slots().len() && j != i ==> #[trigger] final(self).slots()[j] == old(self).slots()[j],
    {
        let mut page = self.pool[i].page.duplicate();
        page.set_int(offset, val);
        self.modify(i, page, txnum, lsn);
    }
}

impl BufferMgr {
    /// Writes `val` at `offset` of slot `i`'s page, marking the page dirty
    /// for `txnum` with the LSN of the change's log record.
    pub fn set_string(&mut self, i: usize, offset: usize, val: &str, txnum: i32, lsn: usize)
        requires
            old(self).wf(),
            txnum >= 0,
            i < old(self).slots().len(),
            old(self).slots()[i as int].blk is Some,
            encode_utf8(val@).len() + offset + 4 <= old(self).fm.spec_block_size(),
            encode_utf8(val@).len() <= i32::MAX,
        ensures
            final(self).wf(),
            final(self).fm == old(self).fm,
            final(self).lm == old(self).lm,
            final(self).slots().len() == old(self).slots().len(),
            final(self).slots()[i as int].page@ == overwrite(old(self).slots()[i as int].page@, offset as int, string_bytes(val@)),
            final(self).current(assigned(old(self).slots()[i as int])->0) == final(self).slots()[i as int].page@,
            forall|b: BlockModel|
                b != assigned(old(self).slots()[i as int])->0 ==> #[trigger] final(self).current(b)
                    == old(self).current(b),
            final(self).slots()[i as int].blk == old(self).slots()[i as int].blk,
            final(self).slots()[i as int].pins == old(self).slots()[i as int].pins,
            final(self).slots()[i as int].txnum == txnum,
            final(self).slots()[i as int].lsn == lsn,
            forall|j: int| 0 <= j < final(self).slots().len() && j != i ==> #[trigger] final(self).slots()[j] == old(self).slots()[j],
    {
        let mut page = self.pool[i].page.duplicate();
        page.set_string(offset, val);
        self.modify(i, page, txnum, lsn);
    }

    /// Writes every page last modified by `txnum` to its block, after making
    /// the log durable up to the page's LSN; those pages become clean.
    pub fn flush_all(&mut self, txnum: i32)
        requires
            old(self).wf(),
            txnum >= 0,
        ensures
            final(self).wf(),
            final(self).slots().len() == old(self).slots().len(),
            forall|j: int|
                0 <= j < final(self).slots().len() ==> {
                    &&& (#[trigger] final(self).slots()[j]).page == old(self).slots()[j].page
                    &&& final(self).slots()[j].blk == old(self).slots()[j].blk
                    &&& final(self).slots()[j].pins == old(self).slots()[j].pins
                    &&& final(self).slots()[j].txnum != txnum
                    &&& old(self).slots()[j].txnum == txnum ==> final(self).fm.block(
                        assigned(old(self).slots()[j])->0,
                    ) == old(self).slots()[j].page@
                },
            forall|b: BlockModel| #[trigger] final(self).fm.has_block(b) == old(self).fm.has_block(b),
            forall|b: BlockModel| old(self).fm.has_block(b) ==> #[trigger] final(self).current(b) == old(self).current(b),
            final(self).fm.spec_block_size() == old(self).fm.spec_block_size(),
            final(self).lm.records() == old(self).lm.records(),
    {
        let n = self.pool.len();
        let mut i: usize = 0;
        while i < n
            invariant
                self.wf(),
                old(self).wf(),
                n == old(self).slots().len(),
                self.slots().len() == n,
                i <= n,
                txnum >= 0,
                forall|j: int|
                    0 <= j < n ==> {
                        &&& (#[trigger] self.slots()[j]).page == old(self).slots()[j].page
                        &&& self.slots()[j].blk == old(self).slots()[j].blk
                        &&& self.slots()[j].pins == old(self).slots()[j].pins
                        &&& j >= i ==> self.slots()[j].txnum == old(self).slots()[j].txnum
                        &&& j < i ==> self.slots()[j].txnum != txnum
                        &&& j < i && old(self).slots()[j].txnum == txnum ==> self.fm.block(
                            assigned(old(self).slots()[j])->0,
                        ) == old(self).slots()[j].page@
                    },
                forall|b: BlockModel| #[trigger] self.fm.has_block(b) == old(self).fm.has_block(b),
                forall|b: BlockModel| old(self).fm.has_block(b) ==> #[trigger] self.current(b) == old(self).current(b),
                self.fm.spec_block_size() == old(self).fm.spec_block_size(),
                self.lm.records() == old(self).lm.records(),
            decreases n - i,
        {
            if self.pool[i].txnum == txnum {
                let ghost before = *self;
                self.flush_slot(i);
                proof {
                    let bi = assigned(before.slots()[i as int])->0;
                    assert forall|j: int| 0 <= j < i && old(self).slots()[j].txnum == txnum
                        implies self.fm.block(assigned(old(self).slots()[j])->0) == old(self).slots()[j].page@ by {
                        let bj = assigned(before.slots()[j])->0;
                        assert(old(self).slots()[j].blk is Some);
                        assert(before.slots()[i as int].blk is Some);
                        assert(assigned(before.slots()[j]) != assigned(before.slots()[i as int]));
                        assert(before.fm.block(bj) == old(self).slots()[j].page@);
                        assert(before.fm.has_block(bj));
                        assert(self.fm.file(bj.filename) == if bj.filename == bi.filename {
                            before.fm.file(bj.filename).update(bi.number as int, before.slots()[i as int].page@)
                        } else {
                            before.fm.file(bj.filename)
                        });
                    }
                    let fi = bi.filename;
                    assert(self.fm.file(fi) == before.fm.file(fi).update(bi.number as int, before.slots()[i as int].page@));
                }
            }
            i = i + 1;
        }
    }
}

} // verus!
