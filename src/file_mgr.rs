//! Block-addressed storage of named files, held in memory; persisting it
//! to the operating system's files is left to the program around the library.
use crate::block_id::{BlockId, BlockModel};
use crate::error::DbError;
use crate::page::Page;
use vstd::prelude::*;

verus! {

/// One file: its name and its blocks in order.
pub struct DiskFile {
    pub name: String,
    pub blocks: Vec<Page>,
}

/// A set of named files of fixed-size blocks.
pub struct FileMgr {
    block_size: usize,
    files: Vec<DiskFile>,
}

impl FileMgr {
    /// The size of every block.
    pub closed spec fn spec_block_size(&self) -> nat {
        self.block_size as nat
    }

    /// Whether a file of this name exists.
    pub closed spec fn has_file(&self, name: Seq<char>) -> bool {
        exists|i: int| 0 <= i < self.files@.len() && #[trigger] self.files@[i].name@ == name
    }

    /// The contents of the named file, block by block (empty when there is no such file).
    pub closed spec fn file(&self, name: Seq<char>) -> Seq<Seq<u8>> {
        if self.has_file(name) {
            let i = choose|i: int| 0 <= i < self.files@.len() && #[trigger] self.files@[i].name@ == name;
            self.files@[i].blocks@.map_values(|p: Page| p@)
        } else {
            Seq::empty()
        }
    }

    /// Whether the block exists.
    pub open spec fn has_block(&self, blk: BlockModel) -> bool {
        0 <= blk.number < self.file(blk.filename).len()
    }

    /// The bytes of an existing block.
    pub open spec fn block(&self, blk: BlockModel) -> Seq<u8> {
        self.file(blk.filename)[blk.number as int]
    }

    /// File names are distinct and every block has the block size.
    pub closed spec fn wf(&self) -> bool {
        &&& forall|i: int, j: int|
            0 <= i < self.files@.len() && 0 <= j < self.files@.len() && i != j
                ==> #[trigger] self.files@[i].name@ != #[trigger] self.files@[j].name@
        &&& forall|i: int, k: int|
            0 <= i < self.files@.len() && 0 <= k < self.files@[i].blocks@.len()
                ==> (#[trigger] self.files@[i].blocks@[k])@.len() == self.block_size
    }

    /// Every block of every file has the block size.
    pub proof fn lemma_block_len(&self, blk: BlockModel)
        requires
            self.wf(),
            self.has_block(blk),
        ensures
            self.block(blk).len() == self.spec_block_size(),
    {
        let i = choose|i: int| 0 <= i < self.files@.len() && #[trigger] self.files@[i].name@ == blk.filename;
        assert(self.files@[i].blocks@[blk.number as int]@.len() == self.block_size);
    }

    /// An empty store whose blocks have `block_size` bytes.
    pub fn new(block_size: usize) -> (r: FileMgr)
        ensures
            r.wf(),
            r.spec_block_size() == block_size,
            forall|n: Seq<char>| !r.has_file(n),
    {
        FileMgr { block_size, files: Vec::new() }
    }

    pub fn block_size(&self) -> (r: usize)
        ensures
            r == self.spec_block_size(),
    {
        self.block_size
    }

    fn find(&self, name: &str) -> (r: Option<usize>)
        requires
            self.wf(),
        ensures
            r is Some <==> self.has_file(name@),
            r matches Some(i) ==> i < self.files@.len() && self.files@[i as int].name@ == name@
                && self.file(name@) == self.files@[i as int].blocks@.map_values(|p: Page| p@),
    {
        let key = name.to_owned();
        let mut i: usize = 0;
        while i < self.files.len()
            invariant
                key@ == name@,
                self.wf(),
                i <= self.files@.len(),
                forall|j: int| 0 <= j < i ==> #[trigger] self.files@[j].name@ != name@,
            decreases self.files@.len() - i,
        {
            if self.files[i].name == key {
                proof {
                    assert(self.files@[i as int].name@ == name@);
                    assert(self.has_file(name@));
                    let k = choose|j: int| 0 <= j < self.files@.len() && #[trigger] self.files@[j].name@ == name@;
                }
                return Some(i);
            }
            i = i + 1;
        }
        None
    }

    /// The number of blocks of the named file (0 when there is none).
    pub fn size(&self, filename: &str) -> (r: usize)
        requires
            self.wf(),
        ensures
            r == self.file(filename@).len(),
    {
        match self.find(filename) {
            Some(i) => self.files[i].blocks.len(),
            None => 0,
        }
    }

    /// A copy of the block's bytes; an I/O error when the block does not exist.
    pub fn read(&self, blk: &BlockId) -> (r: Result<Page, DbError>)
        requires
            self.wf(),
        ensures
            r is Ok <==> self.has_block(blk@),
            r matches Ok(p) ==> p@ == self.block(blk@),
            r matches Err(e) ==> e is Io,
    {
        match self.find(blk.filename()) {
            Some(i) => {
                if blk.number < 0 || blk.number as usize >= self.files[i].blocks.len() {
                    return Err(DbError::Io(String::from_str("block out of range")));
                }
                let src = &self.files[i].blocks[blk.number as usize];
                let mut v: Vec<u8> = Vec::new();
                crate::codec::append_bytes(&mut v, src.contents());
                Ok(Page::from_bytes(v))
            },
            None => Err(DbError::Io(String::from_str("no such file"))),
        }
    }

    /// Stores the page's bytes as the block's; an I/O error when the block
    /// does not exist or the page has another size.
    pub fn write(&mut self, blk: &BlockId, page: &Page) -> (r: Result<(), DbError>)
        requires
            old(self).wf(),
        ensures
            final(self).wf(),
            final(self).spec_block_size() == old(self).spec_block_size(),
            r is Ok <==> old(self).has_block(blk@) && page@.len() == old(self).spec_block_size(),
            r is Ok ==> forall|n: Seq<char>|
                #[trigger] final(self).file(n) == if n == blk@.filename {
                    old(self).file(n).update(blk@.number as int, page@)
                } else {
                    old(self).file(n)
                },
            r is Ok ==> forall|n: Seq<char>| #[trigger] final(self).has_file(n) == old(self).has_file(n),
            r is Err ==> *final(self) == *old(self),
            r matches Err(e) ==> e is Io,
    {
        match self.find(blk.filename()) {
            Some(i) => {
                if blk.number < 0 || blk.number as usize >= self.files[i].blocks.len()
                    || page.len() != self.block_size {
                    return Err(DbError::Io(String::from_str("block out of range")));
                }
                let mut v: Vec<u8> = Vec::new();
                crate::codec::append_bytes(&mut v, page.contents());
                let mut f = self.files.remove(i);
                f.blocks.set(blk.number as usize, Page::from_bytes(v));
                self.files.insert(i, f);
                proof {
                    assert forall|n: Seq<char>| #[trigger] self.has_file(n) == old(self).has_file(n) by {
                        if old(self).has_file(n) {
                            let j = choose|j: int| 0 <= j < old(self).files@.len() && #[trigger] old(self).files@[j].name@ == n;
                            assert(self.files@[j].name@ == n);
                        }
                        if self.has_file(n) {
                            let j = choose|j: int| 0 <= j < self.files@.len() && #[trigger] self.files@[j].name@ == n;
                            assert(old(self).files@[j].name@ == n);
                        }
                    }
                    assert forall|n: Seq<char>|
                        #[trigger] self.file(n) == if n == blk@.filename {
                            old(self).file(n).update(blk@.number as int, page@)
                        } else {
                            old(self).file(n)
                        } by {
                        if self.has_file(n) {
                            let j = choose|j: int| 0 <= j < self.files@.len() && #[trigger] self.files@[j].name@ == n;
                            let k = choose|j: int| 0 <= j < old(self).files@.len() && #[trigger] old(self).files@[j].name@ == n;
                            assert(old(self).files@[j].name@ == n);
                            assert(j == k);
                            if j == i {
                                assert(self.file(n) =~= old(self).file(n).update(blk@.number as int, page@));
                            } else {
                                assert(self.file(n) =~= old(self).file(n));
                            }
                        }
                    }
                }
                Ok(())
            },
            None => Err(DbError::Io(String::from_str("no such file"))),
        }
    }

    /// Adds a zeroed block at the end of the named file, creating the file
    /// when it does not exist, and returns the new block's address.
    pub fn append(&mut self, filename: &str) -> (r: Result<BlockId, DbError>)
        requires
            old(self).wf(),
        ensures
            final(self).wf(),
            final(self).spec_block_size() == old(self).spec_block_size(),
            r is Ok <==> old(self).file(filename@).len() < i32::MAX,
            r matches Ok(b) ==> {
                &&& b@.filename == filename@
                &&& b@.number == old(self).file(filename@).len()
                &&& final(self).file(filename@) == old(self).file(filename@).push(
                    Seq::new(old(self).spec_block_size(), |k: int| 0u8),
                )
                &&& forall|n: Seq<char>| n != filename@ ==> #[trigger] final(self).file(n) == old(self).file(n)
                &&& forall|n: Seq<char>| n != filename@ ==> #[trigger] final(self).has_file(n) == old(self).has_file(n)
                &&& final(self).has_file(filename@)
            },
            r is Err ==> *final(self) == *old(self),
    {
        let fresh = Page::new(self.block_size);
        let name = filename.to_owned();
        let idx = match self.find(filename) {
            Some(i) => i,
            None => {
                self.files.push(DiskFile { name, blocks: Vec::new() });
                let i = self.files.len() - 1;
                proof {
                    assert forall|n: Seq<char>| n != filename@ implies #[trigger] self.has_file(n) == old(self).has_file(n) && self.file(n) == old(self).file(n) by {
                        if self.has_file(n) {
                            let j = choose|j: int| 0 <= j < self.files@.len() && #[trigger] self.files@[j].name@ == n;
                            assert(old(self).files@[j].name@ == n);
                            assert(old(self).has_file(n));
                            let k = choose|j: int| 0 <= j < old(self).files@.len() && #[trigger] old(self).files@[j].name@ == n;
                            assert(self.files@[k].name@ == n);
                        }
                        if old(self).has_file(n) {
                            let j = choose|j: int| 0 <= j < old(self).files@.len() && #[trigger] old(self).files@[j].name@ == n;
                            assert(self.files@[j].name@ == n);
                        }
                    }
                    assert(self.files@[i as int].name@ == filename@);
                    assert(self.has_file(filename@));
                    assert(self.file(filename@) =~= Seq::empty());
                }
                i
            },
        };
        let ghost mid = *self;
        assert(forall|n: Seq<char>| n != filename@ ==> #[trigger] mid.has_file(n) == old(self).has_file(n) && mid.file(n) == old(self).file(n));
        if self.files[idx].blocks.len() >= i32::MAX as usize {
            return Err(DbError::Io(String::from_str("file is full")));
        }
        let number = self.files[idx].blocks.len() as i32;
        let mut f = self.files.remove(idx);
        f.blocks.push(fresh);
        self.files.insert(idx, f);
        proof {
            assert forall|n: Seq<char>| n != filename@ implies #[trigger] self.has_file(n) == mid.has_file(n) && self.file(n) == mid.file(n) by {
                if self.has_file(n) {
                    let j = choose|j: int| 0 <= j < self.files@.len() && #[trigger] self.files@[j].name@ == n;
                    assert(mid.files@[j].name@ == n);
                    let k = choose|j: int| 0 <= j < mid.files@.len() && #[trigger] mid.files@[j].name@ == n;
                    assert(j == k);
                    assert(self.file(n) =~= mid.file(n));
                }
                if mid.has_file(n) {
                    let j = choose|j: int| 0 <= j < mid.files@.len() && #[trigger] mid.files@[j].name@ == n;
                    assert(self.files@[j].name@ == n);
                }
            }
            assert(self.files@[idx as int].name@ == filename@);
            let k = choose|j: int| 0 <= j < self.files@.len() && #[trigger] self.files@[j].name@ == filename@;
            assert(k == idx);
            assert(self.file(filename@) =~= mid.file(filename@).push(
                Seq::new(old(self).spec_block_size(), |k: int| 0u8)));
        }
        Ok(BlockId::new(name_of(filename), number))
    }
}

fn name_of(s: &str) -> (r: String)
    ensures
        r@ == s@,
{
    s.to_owned()
}

} // verus!
