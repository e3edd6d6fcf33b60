use vstd::prelude::*;

verus! {

/// The address of a block: a file name and a zero-based block number.
#[derive(Debug)]
pub struct BlockId {
    pub filename: String,
    pub number: i32,
}

/// What a block address denotes: the file name's characters and the number.
pub struct BlockModel {
    pub filename: Seq<char>,
    pub number: i32,
}

impl View for BlockId {
    type V = BlockModel;

    open spec fn view(&self) -> BlockModel {
        BlockModel { filename: self.filename@, number: self.number }
    }
}

impl BlockId {
    pub fn new(filename: String, number: i32) -> (r: BlockId)
        ensures
            r.filename@ == filename@,
            r.number == number,
    {
        BlockId { filename, number }
    }

    pub fn filename(&self) -> (r: &str)
        ensures
            r@ == self.filename@,
    {
        self.filename.as_str()
    }

    pub fn number(&self) -> (r: i32)
        ensures
            r == self.number,
    {
        self.number
    }

    /// Whether the two addresses name the same block.
    pub fn same(&self, other: &BlockId) -> (r: bool)
        ensures
            r == (self@ == other@),
    {
        self.number == other.number && self.filename == other.filename
    }

    /// A copy of this address.
    pub fn duplicate(&self) -> (r: BlockId)
        ensures
            r == *self,
            r@ == self@,
    {
        BlockId { filename: self.filename.clone(), number: self.number }
    }
}

impl Clone for BlockId {
    fn clone(&self) -> (r: BlockId)
        ensures
            r@ == self@,
    {
        self.duplicate()
    }
}

impl PartialEq for BlockId {
    fn eq(&self, other: &BlockId) -> (r: bool) {
        self.same(other)
    }
}

impl vstd::std_specs::cmp::PartialEqSpecImpl for BlockId {
    open spec fn obeys_eq_spec() -> bool {
        true
    }

    open spec fn eq_spec(&self, other: &BlockId) -> bool {
        self@ == other@
    }
}

impl Eq for BlockId {
}

} // verus!
