//! The append-only write-ahead log, held in memory, with a durable prefix.
use vstd::prelude::*;

verus! {

/// The log: its records in append order and how many of them are durable.
pub struct LogMgr {
    records: Vec<Vec<u8>>,
    flushed: usize,
}

impl LogMgr {
    /// The records in append order; a record's LSN is its position plus one.
    pub closed spec fn records(&self) -> Seq<Seq<u8>> {
        self.records@.map_values(|r: Vec<u8>| r@)
    }

    /// How many records, from the first, are durable.
    pub closed spec fn durable(&self) -> nat {
        self.flushed as nat
    }

    pub closed spec fn wf(&self) -> bool {
        self.flushed <= self.records@.len()
    }

    pub fn new() -> (r: LogMgr)
        ensures
            r.wf(),
            r.records() == Seq::<Seq<u8>>::empty(),
            r.durable() == 0,
    {
        LogMgr { records: Vec::new(), flushed: 0 }
    }

    /// Appends a record and returns its LSN, which is larger than every earlier one.
    pub fn append(&mut self, rec: &[u8]) -> (r: usize)
        requires
            old(self).wf(),
            old(self).records().len() < usize::MAX,
        ensures
            final(self).wf(),
            final(self).records() == old(self).records().push(rec@),
            final(self).durable() == old(self).durable(),
            r == final(self).records().len(),
    {
        let mut v: Vec<u8> = Vec::new();
        crate::codec::append_bytes(&mut v, rec);
        self.records.push(v);
        assert(self.records() =~= old(self).records().push(rec@));
        self.records.len()
    }

    /// The LSN of the newest record (0 when the log is empty).
    pub fn last_lsn(&self) -> (r: usize)
        ensures
            r == self.records().len(),
    {
        self.records.len()
    }

    /// Makes every record up to and including `lsn` durable.
    pub fn flush(&mut self, lsn: usize)
        requires
            old(self).wf(),
        ensures
            final(self).wf(),
            final(self).records() == old(self).records(),
            final(self).durable() >= old(self).durable(),
            final(self).durable() >= lsn || final(self).durable() == final(self).records().len(),
            final(self).durable() <= final(self).records().len(),
    {
        if lsn > self.flushed {
            if lsn <= self.records.len() {
                self.flushed = lsn;
            } else {
                self.flushed = self.records.len();
            }
        }
    }

    /// The records, newest first.
    pub fn newest_first(&self) -> (r: Vec<Vec<u8>>)
        ensures
            r@.len() == self.records().len(),
            forall|i: int|
                0 <= i < r@.len() ==> #[trigger] r@[i]@ == self.records()[r@.len() - 1 - i],
    {
        let mut out: Vec<Vec<u8>> = Vec::new();
        let n = self.records.len();
        let mut k: usize = n;
        while k > 0
            invariant
                k <= n,
                n == self.records@.len(),
                out@.len() == n - k,
                forall|i: int|
                    0 <= i < out@.len() ==> #[trigger] out@[i]@ == self.records()[n - 1 - i],
            decreases k,
        {
            k = k - 1;
            let mut v: Vec<u8> = Vec::new();
            crate::codec::append_bytes(&mut v, self.records[k].as_slice());
            out.push(v);
        }
        out
    }

    /// What survives a crash: the records past the durable prefix are lost.
    pub fn crash(&mut self)
        requires
            old(self).wf(),
        ensures
            final(self).wf(),
            final(self).records() == old(self).records().subrange(0, old(self).durable() as int),
            final(self).durable() == old(self).durable(),
    {
        self.records.truncate(self.flushed);
        assert(self.records() =~= old(self).records().subrange(0, old(self).durable() as int));
    }
}

} // verus!
